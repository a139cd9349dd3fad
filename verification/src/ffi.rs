//! What the app shell sees: display rows (never keys), and the bookkeeping
//! of the inbox behind them: per-conversation sequence numbers, deletion,
//! disappearing messages, and moving a conversation to a new id.

use vstd::prelude::*;
use crate::app::{FileMeta, AppBody, AppHeader, AppMessage, BodyView, MessageView, encoded, reports};
use crate::error::CoreError;
use crate::hex::{hex_bytes, hex_of};
use crate::mailbox::TtlBucket;
use crate::ids::KEY_LEN;
use crate::discovery::ids_view;

verus! {

/// The one error the shell sees, with its message.
#[derive(Debug, Clone, PartialEq, Eq)]
pub enum FfiError {
    Core(String),
}

/// A decrypted 1:1 or group text or file for the shell. Never includes
/// ratchet or MLS keys.
#[derive(Clone, Debug, PartialEq, Eq)]
pub struct DisplayRow {
    pub conv_id: String,
    pub conv_seq: u64,
    pub text: String,
    pub sent_at: u64,
    pub file_name: String,
    pub file_mime: String,
    pub file_bytes: Vec<u8>,
    pub fetch_token: String,
    pub kind: String,
    pub emoji: String,
    pub target: u64,
    pub hidden: bool,
    pub displayed_at: u64,
}

/// A hosted group the shell can list. No signing keys.
#[derive(Clone, Debug, PartialEq, Eq)]
pub struct GroupRow {
    pub group_id: String,
    pub nickname: String,
    pub member_count: u64,
}

/// The local nickname of a 1:1 contact. No keys.
#[derive(Clone, Debug, PartialEq, Eq)]
pub struct ContactRow {
    pub identity_id: String,
    pub nickname: String,
}

/// The identity shown before a contact is added: its id and public
/// fingerprint only.
#[derive(Clone, Debug, PartialEq, Eq)]
pub struct ContactPreview {
    pub identity_id_hex: String,
    pub fingerprint: String,
}

/// The error for a poisoned lock.
pub fn lock_err() -> (e: FfiError)
    ensures
        e matches FfiError::Core(m) && m@ == "lock"@,
{
    FfiError::Core(String::from_str("lock"))
}

/// The content of a [`DisplayRow`].
pub struct RowView {
    pub conv_id: Seq<char>,
    pub conv_seq: u64,
    pub text: Seq<char>,
    pub sent_at: u64,
    pub file_name: Seq<char>,
    pub file_mime: Seq<char>,
    pub file_bytes: Seq<u8>,
    pub fetch_token: Seq<char>,
    pub kind: Seq<char>,
    pub emoji: Seq<char>,
    pub target: u64,
    pub hidden: bool,
    pub displayed_at: u64,
}

impl View for DisplayRow {
    type V = RowView;

    open spec fn view(&self) -> RowView {
        RowView {
            conv_id: self.conv_id@,
            conv_seq: self.conv_seq,
            text: self.text@,
            sent_at: self.sent_at,
            file_name: self.file_name@,
            file_mime: self.file_mime@,
            file_bytes: self.file_bytes@,
            fetch_token: self.fetch_token@,
            kind: self.kind@,
            emoji: self.emoji@,
            target: self.target,
            hidden: self.hidden,
            displayed_at: self.displayed_at,
        }
    }
}

pub open spec fn rows_view(rows: Seq<DisplayRow>) -> Seq<RowView> {
    Seq::new(rows.len(), |i: int| rows[i]@)
}

fn copy_bytes(b: &Vec<u8>) -> (r: Vec<u8>)
    ensures
        r@ == b@,
{
    let mut out: Vec<u8> = Vec::new();
    let mut i: usize = 0;
    while i < b.len()
        invariant
            i <= b@.len(),
            out@ == b@.take(i as int),
        decreases b@.len() - i,
    {
        out.push(b[i]);
        i = i + 1;
        assert(out@ =~= b@.take(i as int));
    }
    assert(b@.take(i as int) =~= b@);
    out
}

/// A copy of a row, field for field.
pub fn copy_row(r: &DisplayRow) -> (c: DisplayRow)
    ensures
        c@ == r@,
{
    DisplayRow {
        conv_id: r.conv_id.clone(),
        conv_seq: r.conv_seq,
        text: r.text.clone(),
        sent_at: r.sent_at,
        file_name: r.file_name.clone(),
        file_mime: r.file_mime.clone(),
        file_bytes: copy_bytes(&r.file_bytes),
        fetch_token: r.fetch_token.clone(),
        kind: r.kind.clone(),
        emoji: r.emoji.clone(),
        target: r.target,
        hidden: r.hidden,
        displayed_at: r.displayed_at,
    }
}

// ---------------------------------------------------------------------------
// Maps keyed by conversation id
// ---------------------------------------------------------------------------

/// A map keyed by conversation id, each id at most once.
pub struct TextMap<V> {
    entries: Vec<(String, V)>,
}

/// Conversation id to a number: the highest sequence number seen, or the
/// disappearing-message timer in seconds.
pub type SeqMap = TextMap<u64>;

/// Conversation id to nickname.
pub type NameMap = TextMap<String>;

impl<V> TextMap<V> {
    /// No conversation id occurs twice.
    pub closed spec fn wf(self) -> bool {
        forall|i: int, j: int|
            0 <= i < j < self.entries@.len() ==> self.entries@[i].0@ != self.entries@[j].0@
    }

    /// The recorded map.
    pub closed spec fn map(self) -> Map<Seq<char>, V> {
        Map::new(
            |k: Seq<char>| exists|i: int| 0 <= i < self.entries@.len() && self.entries@[i].0@ == k,
            |k: Seq<char>|
                self.entries@[choose|i: int|
                    0 <= i < self.entries@.len() && self.entries@[i].0@ == k].1,
        )
    }

    pub fn new() -> (r: Self)
        ensures
            r.wf(),
            r.map() == Map::<Seq<char>, V>::empty(),
    {
        let r = TextMap { entries: Vec::new() };
        assert(r.map() =~= Map::<Seq<char>, V>::empty());
        r
    }

    proof fn lemma_map_at(self, i: int)
        requires
            self.wf(),
            0 <= i < self.entries@.len(),
        ensures
            self.map().contains_key(self.entries@[i].0@),
            self.map()[self.entries@[i].0@] == self.entries@[i].1,
    {
        let k = self.entries@[i].0@;
        let j = choose|j: int| 0 <= j < self.entries@.len() && self.entries@[j].0@ == k;
        if j != i {
            if j < i {
                assert(self.entries@[j].0@ != self.entries@[i].0@);
            } else {
                assert(self.entries@[i].0@ != self.entries@[j].0@);
            }
        }
    }

    fn find(&self, k: &String) -> (r: Option<usize>)
        requires
            self.wf(),
        ensures
            match r {
                Some(i) => i < self.entries@.len() && self.entries@[i as int].0@ == k@,
                None => !self.map().contains_key(k@),
            },
    {
        let mut i: usize = 0;
        while i < self.entries.len()
            invariant
                i <= self.entries@.len(),
                forall|m: int| 0 <= m < i ==> self.entries@[m].0@ != k@,
            decreases self.entries@.len() - i,
        {
            if self.entries[i].0 == *k {
                return Some(i);
            }
            i = i + 1;
        }
        None
    }

    /// The value for `k`, if any.
    pub fn get_ref(&self, k: &String) -> (r: Option<&V>)
        requires
            self.wf(),
        ensures
            match r {
                Some(v) => self.map().contains_key(k@) && self.map()[k@] == *v,
                None => !self.map().contains_key(k@),
            },
    {
        match self.find(k) {
            Some(i) => {
                proof {
                    self.lemma_map_at(i as int);
                }
                Some(&self.entries[i].1)
            },
            None => None,
        }
    }

    /// Sets the number for `k`.
    pub fn set(&mut self, k: String, v: V)
        requires
            old(self).wf(),
        ensures
            final(self).wf(),
            final(self).map() == old(self).map().insert(k@, v),
    {
        match self.find(&k) {
            Some(i) => {
                proof {
                    old(self).lemma_map_at(i as int);
                }
                let ghost kv = k@;
                self.entries.set(i, (k, v));
                proof {
                    assert forall|a: int, b: int|
                        0 <= a < b < self.entries@.len() implies self.entries@[a].0@
                        != self.entries@[b].0@ by {
                        assert(old(self).entries@[a].0@ != old(self).entries@[b].0@);
                    }
                    self.lemma_same_keys_update(*old(self), i as int, kv, v);
                }
            },
            None => {
                let ghost kv = k@;
                self.entries.push((k, v));
                proof {
                    self.lemma_push(*old(self), kv, v);
                }
            },
        }
    }

    proof fn lemma_same_keys_update(self, before: TextMap<V>, i: int, k: Seq<char>, v: V)
        requires
            before.wf(),
            self.wf(),
            0 <= i < before.entries@.len(),
            before.entries@[i].0@ == k,
            self.entries@ == before.entries@.update(i, self.entries@[i]),
            self.entries@[i].0@ == k,
            self.entries@[i].1 == v,
        ensures
            self.map() == before.map().insert(k, v),
    {
        assert forall|key: Seq<char>| #[trigger] self.map().contains_key(key)
            <==> before.map().insert(k, v).contains_key(key) by {
            if self.map().contains_key(key) {
                let j = choose|j: int|
                    0 <= j < self.entries@.len() && self.entries@[j].0@ == key;
                if j != i {
                    assert(before.entries@[j] == self.entries@[j]);
                }
            }
            if before.map().contains_key(key) {
                let j = choose|j: int|
                    0 <= j < before.entries@.len() && before.entries@[j].0@ == key;
                if j != i {
                    assert(before.entries@[j] == self.entries@[j]);
                }
            }
        }
        assert forall|key: Seq<char>| #[trigger] self.map().contains_key(key) implies self.map()[key]
            == before.map().insert(k, v)[key] by {
            let j = choose|j: int| 0 <= j < self.entries@.len() && self.entries@[j].0@ == key;
            self.lemma_map_at(j);
            if j != i {
                assert(before.entries@[j] == self.entries@[j]);
                before.lemma_map_at(j);
            }
        }
        assert(self.map() =~= before.map().insert(k, v));
    }

    proof fn lemma_push(self, before: TextMap<V>, k: Seq<char>, v: V)
        requires
            before.wf(),
            !before.map().contains_key(k),
            self.entries@ == before.entries@.push(self.entries@.last()),
            self.entries@.last().0@ == k,
            self.entries@.last().1 == v,
        ensures
            self.wf(),
            self.map() == before.map().insert(k, v),
    {
        let n = before.entries@.len() as int;
        assert forall|a: int, b: int|
            0 <= a < b < self.entries@.len() implies self.entries@[a].0@ != self.entries@[b].0@ by {
            if b < n {
                assert(before.entries@[a].0@ != before.entries@[b].0@);
            } else {
                assert(self.entries@[a] == before.entries@[a]);
            }
        }
        assert forall|key: Seq<char>| #[trigger] self.map().contains_key(key)
            <==> before.map().insert(k, v).contains_key(key) by {
            if self.map().contains_key(key) && key != k {
                let j = choose|j: int|
                    0 <= j < self.entries@.len() && self.entries@[j].0@ == key;
                assert(j < n);
                assert(before.entries@[j] == self.entries@[j]);
            }
            if before.map().contains_key(key) {
                let j = choose|j: int|
                    0 <= j < before.entries@.len() && before.entries@[j].0@ == key;
                assert(before.entries@[j] == self.entries@[j]);
            }
            if key == k {
                assert(self.entries@[n].0@ == k);
            }
        }
        assert forall|key: Seq<char>| #[trigger] self.map().contains_key(key) implies self.map()[key]
            == before.map().insert(k, v)[key] by {
            let j = choose|j: int| 0 <= j < self.entries@.len() && self.entries@[j].0@ == key;
            self.lemma_map_at(j);
            if j < n {
                assert(before.entries@[j] == self.entries@[j]);
                before.lemma_map_at(j);
            }
        }
        assert(self.map() =~= before.map().insert(k, v));
    }

    /// Removes `k` and returns its number, if it had one.
    pub fn remove(&mut self, k: &String) -> (r: Option<V>)
        requires
            old(self).wf(),
        ensures
            final(self).wf(),
            final(self).map() == old(self).map().remove(k@),
            r == (if old(self).map().contains_key(k@) {
                Some(old(self).map()[k@])
            } else {
                None
            }),
    {
        match self.find(k) {
            None => {
                assert(self.map().remove(k@) =~= self.map());
                None
            },
            Some(i) => {
                proof {
                    self.lemma_map_at(i as int);
                }
                let ghost before = *self;
                let (_, v) = self.entries.remove(i);
                proof {
                    let n = before.entries@.len() as int;
                    assert forall|a: int, b: int|
                        0 <= a < b < self.entries@.len() implies self.entries@[a].0@
                        != self.entries@[b].0@ by {
                        let a0 = if a < i { a } else { a + 1 };
                        let b0 = if b < i { b } else { b + 1 };
                        assert(self.entries@[a] == before.entries@[a0]);
                        assert(self.entries@[b] == before.entries@[b0]);
                        assert(before.entries@[a0].0@ != before.entries@[b0].0@);
                    }
                    assert forall|key: Seq<char>| #[trigger] self.map().contains_key(key)
                        <==> before.map().remove(k@).contains_key(key) by {
                        if self.map().contains_key(key) {
                            let j = choose|j: int|
                                0 <= j < self.entries@.len() && self.entries@[j].0@ == key;
                            let j0 = if j < i { j } else { j + 1 };
                            assert(self.entries@[j] == before.entries@[j0]);
                            assert(before.entries@[j0].0@ != before.entries@[i as int].0@);
                        }
                        if before.map().contains_key(key) && key != k@ {
                            let j = choose|j: int|
                                0 <= j < before.entries@.len() && before.entries@[j].0@ == key;
                            assert(j != i);
                            let j1 = if j < i { j } else { j - 1 };
                            assert(self.entries@[j1] == before.entries@[j]);
                        }
                    }
                    assert forall|key: Seq<char>| #[trigger] self.map().contains_key(key) implies self.map()[key]
                        == before.map().remove(k@)[key] by {
                        let j = choose|j: int|
                            0 <= j < self.entries@.len() && self.entries@[j].0@ == key;
                        self.lemma_map_at(j);
                        let j0 = if j < i { j } else { j + 1 };
                        assert(self.entries@[j] == before.entries@[j0]);
                        before.lemma_map_at(j0);
                    }
                    assert(self.map() =~= before.map().remove(k@));
                }
                Some(v)
            },
        }
    }
}

impl TextMap<u64> {
    /// The number for `k`, 0 when there is none.
    pub open spec fn at(self, k: Seq<char>) -> u64 {
        if self.map().contains_key(k) {
            self.map()[k]
        } else {
            0
        }
    }

    /// The number for `k`, 0 when there is none.
    pub fn get(&self, k: &String) -> (r: u64)
        requires
            self.wf(),
        ensures
            r == self.at(k@),
    {
        match self.get_ref(k) {
            Some(v) => *v,
            None => 0,
        }
    }
}

/// Advances the conversation's own sequence number and returns it.
pub fn bump_seq(map: &mut SeqMap, peer: &str) -> (r: u64)
    requires
        old(map).wf(),
        old(map).at(peer@) < u64::MAX,
    ensures
        final(map).wf(),
        r == old(map).at(peer@) + 1,
        final(map).map() == old(map).map().insert(peer@, r),
{
    let k = String::from_str(peer);
    let next = map.get(&k) + 1;
    map.set(k, next);
    next
}

/// Remembers `conv_seq` as the highest sequence number of the
/// conversation if it is above the one recorded.
fn note_seq(next_seq: &mut SeqMap, conv_id: &String, conv_seq: u64)
    requires
        old(next_seq).wf(),
    ensures
        final(next_seq).wf(),
        conv_seq > old(next_seq).at(conv_id@) ==> final(next_seq).map() == old(next_seq).map().insert(
            conv_id@,
            conv_seq,
        ),
        conv_seq <= old(next_seq).at(conv_id@) ==> final(next_seq).map() == old(next_seq).map(),
{
    let seq = next_seq.get(conv_id);
    if conv_seq > seq {
        next_seq.set(conv_id.clone(), conv_seq);
    }
}

/// The row a received or sent text shows as.
pub open spec fn text_row(conv_id: Seq<char>, conv_seq: u64, text: Seq<char>, sent_at: u64) -> RowView {
    RowView {
        conv_id,
        conv_seq,
        text,
        sent_at,
        file_name: seq![],
        file_mime: seq![],
        file_bytes: seq![],
        fetch_token: seq![],
        kind: seq![],
        emoji: seq![],
        target: 0,
        hidden: false,
        displayed_at: sent_at,
    }
}

/// What every push does to the conversation's sequence number.
pub open spec fn seq_after(before: SeqMap, after: SeqMap, conv_id: Seq<char>, conv_seq: u64) -> bool {
    &&& after.wf()
    &&& conv_seq > before.at(conv_id) ==> after.map() == before.map().insert(conv_id, conv_seq)
    &&& conv_seq <= before.at(conv_id) ==> after.map() == before.map()
}

/// Appends a text row and returns it.
pub fn push_text(
    inbox: &mut Vec<DisplayRow>,
    next_seq: &mut SeqMap,
    conv_id: String,
    conv_seq: u64,
    text: String,
    sent_at: u64,
) -> (row: DisplayRow)
    requires
        old(next_seq).wf(),
    ensures
        row@ == text_row(conv_id@, conv_seq, text@, sent_at),
        rows_view(final(inbox)@) == rows_view(old(inbox)@).push(row@),
        seq_after(*old(next_seq), *final(next_seq), conv_id@, conv_seq),
{
    note_seq(next_seq, &conv_id, conv_seq);
    let row = DisplayRow {
        conv_id,
        conv_seq,
        text,
        sent_at,
        file_name: String::new(),
        file_mime: String::new(),
        file_bytes: Vec::new(),
        fetch_token: String::new(),
        kind: String::new(),
        emoji: String::new(),
        target: 0,
        hidden: false,
        displayed_at: sent_at,
    };
    let copy = copy_row(&row);
    inbox.push(copy);
    assert(rows_view(inbox@) =~= rows_view(old(inbox)@).push(row@));
    row
}

/// The row a file shows as: named after the file.
pub open spec fn file_row(
    conv_id: Seq<char>,
    conv_seq: u64,
    sent_at: u64,
    name: Seq<char>,
    mime: Seq<char>,
    file_bytes: Seq<u8>,
    fetch_token: Seq<char>,
) -> RowView {
    RowView {
        conv_id,
        conv_seq,
        text: name,
        sent_at,
        file_name: name,
        file_mime: mime,
        file_bytes,
        fetch_token,
        kind: "file"@,
        emoji: seq![],
        target: 0,
        hidden: false,
        displayed_at: sent_at,
    }
}

/// Appends a file row and returns it.
pub fn push_file(
    inbox: &mut Vec<DisplayRow>,
    next_seq: &mut SeqMap,
    conv_id: String,
    conv_seq: u64,
    sent_at: u64,
    meta: FileMeta,
    file_bytes: Vec<u8>,
    fetch_token: String,
) -> (row: DisplayRow)
    requires
        old(next_seq).wf(),
    ensures
        row@ == file_row(
            conv_id@,
            conv_seq,
            sent_at,
            meta.name@,
            meta.mime@,
            file_bytes@,
            fetch_token@,
        ),
        rows_view(final(inbox)@) == rows_view(old(inbox)@).push(row@),
        seq_after(*old(next_seq), *final(next_seq), conv_id@, conv_seq),
{
    note_seq(next_seq, &conv_id, conv_seq);
    let row = DisplayRow {
        conv_id,
        conv_seq,
        text: meta.name.clone(),
        sent_at,
        file_name: meta.name,
        file_mime: meta.mime,
        file_bytes,
        fetch_token,
        kind: String::from_str("file"),
        emoji: String::new(),
        target: 0,
        hidden: false,
        displayed_at: sent_at,
    };
    let copy = copy_row(&row);
    inbox.push(copy);
    assert(rows_view(inbox@) =~= rows_view(old(inbox)@).push(row@));
    row
}

/// Control kinds whose emoji field is also shown as the row's text.
pub open spec fn shows_emoji(kind: Seq<char>) -> bool {
    kind == "disappear"@ || (kind.len() >= 5 && kind.take(5) == seq!['c', 'a', 'l', 'l', '_'])
        || kind == "binding_conflict"@
}

/// The row a control message (reaction, deletion, timer, call event, …)
/// shows as.
pub open spec fn control_row(
    conv_id: Seq<char>,
    conv_seq: u64,
    sent_at: u64,
    kind: Seq<char>,
    emoji: Seq<char>,
    target: u64,
) -> RowView {
    RowView {
        conv_id,
        conv_seq,
        text: if shows_emoji(kind) {
            emoji
        } else {
            seq![]
        },
        sent_at,
        file_name: seq![],
        file_mime: seq![],
        file_bytes: seq![],
        fetch_token: seq![],
        kind,
        emoji,
        target,
        hidden: kind == "deleted"@,
        displayed_at: sent_at,
    }
}

fn starts_with_call(kind: &str) -> (r: bool)
    ensures
        r == (kind@.len() >= 5 && kind@.take(5) == seq!['c', 'a', 'l', 'l', '_']),
{
    let c = crate::ice::chars_of(kind);
    if c.len() < 5 {
        return false;
    }
    let r = c[0] == 'c' && c[1] == 'a' && c[2] == 'l' && c[3] == 'l' && c[4] == '_';
    if r {
        assert(kind@.take(5) =~= seq!['c', 'a', 'l', 'l', '_']);
    } else {
        assert(c@[0] != 'c' || c@[1] != 'a' || c@[2] != 'l' || c@[3] != 'l' || c@[4] != '_');
        assert(kind@.take(5)[0] == c@[0] && kind@.take(5)[1] == c@[1] && kind@.take(5)[2]
            == c@[2] && kind@.take(5)[3] == c@[3] && kind@.take(5)[4] == c@[4]);
    }
    r
}

fn str_is(s: &str, lit: &str) -> (r: bool)
    ensures
        r == (s@ == lit@),
{
    String::from_str(s) == String::from_str(lit)
}

/// Appends a control row and returns it.
pub fn push_control(
    inbox: &mut Vec<DisplayRow>,
    next_seq: &mut SeqMap,
    conv_id: String,
    conv_seq: u64,
    sent_at: u64,
    kind: &str,
    emoji: String,
    target: u64,
) -> (row: DisplayRow)
    requires
        old(next_seq).wf(),
    ensures
        row@ == control_row(conv_id@, conv_seq, sent_at, kind@, emoji@, target),
        rows_view(final(inbox)@) == rows_view(old(inbox)@).push(row@),
        seq_after(*old(next_seq), *final(next_seq), conv_id@, conv_seq),
{
    note_seq(next_seq, &conv_id, conv_seq);
    let shows = str_is(kind, "disappear") || starts_with_call(kind) || str_is(kind, "binding_conflict");
    let row = DisplayRow {
        conv_id,
        conv_seq,
        text: if shows {
            emoji.clone()
        } else {
            String::new()
        },
        sent_at,
        file_name: String::new(),
        file_mime: String::new(),
        file_bytes: Vec::new(),
        fetch_token: String::new(),
        kind: String::from_str(kind),
        emoji,
        target,
        hidden: str_is(kind, "deleted"),
        displayed_at: sent_at,
    };
    let copy = copy_row(&row);
    inbox.push(copy);
    assert(rows_view(inbox@) =~= rows_view(old(inbox)@).push(row@));
    row
}

/// The `revoked` control rows for identities found revoked, one per id in
/// order, each on the identity's conversation (its id in hex) at `now`.
pub open spec fn revoked_rows(ids: Seq<Seq<u8>>, now: u64) -> Seq<RowView> {
    Seq::new(
        ids.len(),
        |i: int| control_row(hex_of(ids[i]), 0, now, "revoked"@, Seq::<char>::empty(), 0),
    )
}

/// Tells the shell of every newly revoked identity: appends one `revoked`
/// control row per id, in order, and returns them. Sequence numbers stay.
pub fn push_revoked_rows(
    inbox: &mut Vec<DisplayRow>,
    next_seq: &mut SeqMap,
    newly: &Vec<[u8; KEY_LEN]>,
    now: u64,
) -> (rows: Vec<DisplayRow>)
    requires
        old(next_seq).wf(),
    ensures
        rows_view(rows@) == revoked_rows(ids_view(newly@), now),
        rows_view(final(inbox)@) == rows_view(old(inbox)@) + rows_view(rows@),
        final(next_seq).wf(),
        final(next_seq).map() == old(next_seq).map(),
{
    let mut rows: Vec<DisplayRow> = Vec::new();
    let mut i: usize = 0;
    while i < newly.len()
        invariant
            i <= newly@.len(),
            next_seq.wf(),
            next_seq.map() == old(next_seq).map(),
            rows_view(rows@) == revoked_rows(ids_view(newly@).take(i as int), now),
            rows_view(inbox@) == rows_view(old(inbox)@) + rows_view(rows@),
        decreases newly@.len() - i,
    {
        let id = hex_bytes(newly[i].as_slice());
        let ghost before = rows_view(inbox@);
        let row = push_control(inbox, next_seq, id, 0, now, "revoked", String::new(), 0);
        let ghost rv = row@;
        rows.push(row);
        proof {
            assert(ids_view(newly@)[i as int] == newly@[i as int]@);
            assert(rows_view(rows@) =~= rows_view(rows@).drop_last().push(rv));
            assert(rows_view(rows@).drop_last() =~= revoked_rows(ids_view(newly@).take(i as int), now));
            assert(revoked_rows(ids_view(newly@).take(i + 1), now) =~= revoked_rows(
                ids_view(newly@).take(i as int),
                now,
            ).push(rv));
            assert(rows_view(inbox@) =~= rows_view(old(inbox)@) + rows_view(rows@));
        }
        i = i + 1;
    }
    assert(ids_view(newly@).take(i as int) =~= ids_view(newly@));
    rows
}

/// A row emptied and hidden, marked with `kind`.
pub open spec fn blanked(r: RowView, kind: Seq<char>) -> RowView {
    RowView { hidden: true, kind, text: seq![], file_bytes: seq![], ..r }
}

fn blank_row(r: &DisplayRow, kind: &str) -> (b: DisplayRow)
    ensures
        b@ == blanked(r@, kind@),
{
    DisplayRow {
        conv_id: r.conv_id.clone(),
        conv_seq: r.conv_seq,
        text: String::new(),
        sent_at: r.sent_at,
        file_name: r.file_name.clone(),
        file_mime: r.file_mime.clone(),
        file_bytes: Vec::new(),
        fetch_token: r.fetch_token.clone(),
        kind: String::from_str(kind),
        emoji: r.emoji.clone(),
        target: r.target,
        hidden: true,
        displayed_at: r.displayed_at,
    }
}

/// A deletion hides the rows it targets; reactions stay.
pub open spec fn deleted_by(r: RowView, conv_id: Seq<char>, target: u64) -> bool {
    r.conv_id == conv_id && r.conv_seq == target && r.kind != "reaction"@
}

/// Hides and empties every row of the conversation with sequence number
/// `target`, except reactions.
pub fn hide_target(inbox: &mut Vec<DisplayRow>, conv_id: &str, target: u64)
    ensures
        final(inbox)@.len() == old(inbox)@.len(),
        forall|i: int|
            0 <= i < old(inbox)@.len() ==> #[trigger] final(inbox)@[i]@ == if deleted_by(
                old(inbox)@[i]@,
                conv_id@,
                target,
            ) {
                blanked(old(inbox)@[i]@, "deleted"@)
            } else {
                old(inbox)@[i]@
            },
{
    let conv = String::from_str(conv_id);
    let reaction = String::from_str("reaction");
    let mut i: usize = 0;
    while i < inbox.len()
        invariant
            i <= inbox@.len(),
            inbox@.len() == old(inbox)@.len(),
            conv@ == conv_id@,
            reaction@ == "reaction"@,
            forall|j: int|
                0 <= j < i ==> #[trigger] inbox@[j]@ == if deleted_by(
                    old(inbox)@[j]@,
                    conv_id@,
                    target,
                ) {
                    blanked(old(inbox)@[j]@, "deleted"@)
                } else {
                    old(inbox)@[j]@
                },
            forall|j: int| i <= j < inbox@.len() ==> #[trigger] inbox@[j] == old(inbox)@[j],
        decreases inbox@.len() - i,
    {
        if inbox[i].conv_id == conv && inbox[i].conv_seq == target && !(inbox[i].kind == reaction) {
            let b = blank_row(&inbox[i], "deleted");
            inbox.set(i, b);
        }
        i = i + 1;
    }
}

/// Rows that a disappearing timer has run out on: not yet hidden, with a
/// timer set for their conversation and at least that many seconds shown.
pub open spec fn expires(r: RowView, timers: SeqMap, now: u64) -> bool {
    let secs = timers.at(r.conv_id);
    !r.hidden && secs > 0 && (if now >= r.displayed_at {
        now - r.displayed_at
    } else {
        0
    }) >= secs
}

/// The rows that expire, blanked, in inbox order.
pub open spec fn expired_seq(rows: Seq<RowView>, timers: SeqMap, now: u64) -> Seq<RowView>
    decreases rows.len(),
{
    if rows.len() == 0 {
        seq![]
    } else {
        let prev = expired_seq(rows.drop_last(), timers, now);
        if expires(rows.last(), timers, now) {
            prev.push(blanked(rows.last(), "expired"@))
        } else {
            prev
        }
    }
}

/// Hides and empties every row whose timer has run out; returns the
/// expired rows in inbox order.
pub fn expire_rows(inbox: &mut Vec<DisplayRow>, timers: &SeqMap, now: u64) -> (expired: Vec<
    DisplayRow,
>)
    requires
        timers.wf(),
    ensures
        final(inbox)@.len() == old(inbox)@.len(),
        forall|i: int|
            0 <= i < old(inbox)@.len() ==> #[trigger] final(inbox)@[i]@ == if expires(
                old(inbox)@[i]@,
                *timers,
                now,
            ) {
                blanked(old(inbox)@[i]@, "expired"@)
            } else {
                old(inbox)@[i]@
            },
        rows_view(expired@) == expired_seq(rows_view(old(inbox)@), *timers, now),
{
    let mut out: Vec<DisplayRow> = Vec::new();
    let mut i: usize = 0;
    while i < inbox.len()
        invariant
            timers.wf(),
            i <= inbox@.len(),
            inbox@.len() == old(inbox)@.len(),
            forall|j: int|
                0 <= j < i ==> #[trigger] inbox@[j]@ == if expires(old(inbox)@[j]@, *timers, now) {
                    blanked(old(inbox)@[j]@, "expired"@)
                } else {
                    old(inbox)@[j]@
                },
            forall|j: int| i <= j < inbox@.len() ==> #[trigger] inbox@[j] == old(inbox)@[j],
            rows_view(out@) == expired_seq(rows_view(old(inbox)@).take(i as int), *timers, now),
        decreases inbox@.len() - i,
    {
        proof {
            assert(rows_view(old(inbox)@).take(i + 1).drop_last() =~= rows_view(old(inbox)@).take(
                i as int,
            ));
        }
        if !inbox[i].hidden {
            let secs = timers.get(&inbox[i].conv_id);
            let shown = if now >= inbox[i].displayed_at {
                now - inbox[i].displayed_at
            } else {
                0
            };
            if secs > 0 && shown >= secs {
                let b = blank_row(&inbox[i], "expired");
                let ghost before = out@;
                out.push(copy_row(&b));
                assert(rows_view(out@) =~= rows_view(before).push(b@));
                inbox.set(i, b);
            }
        }
        i = i + 1;
    }
    assert(rows_view(old(inbox)@).take(i as int) =~= rows_view(old(inbox)@));
    out
}

/// The wire lifetime of a message in a conversation with the given timer.
pub open spec fn ttl_of(secs: u64) -> TtlBucket {
    if secs == 0 {
        TtlBucket::Default
    } else if secs <= 60 {
        TtlBucket::Seconds60
    } else {
        TtlBucket::Hour
    }
}

/// Conversations without a timer use the default lifetime; timers up to a
/// minute the one-minute bucket; longer ones the hour bucket.
pub fn ttl_for(disappear: &SeqMap, conv: &str) -> (t: TtlBucket)
    requires
        disappear.wf(),
    ensures
        t == ttl_of(disappear.at(conv@)),
{
    let secs = disappear.get(&String::from_str(conv));
    if secs == 0 {
        TtlBucket::Default
    } else if secs <= 60 {
        TtlBucket::Seconds60
    } else {
        TtlBucket::Hour
    }
}

/// What the call screen shows.
pub fn call_state(live_call: bool, connected: bool, ringing: bool) -> (s: String)
    ensures
        live_call && connected ==> s@ == "live"@,
        live_call && !connected ==> s@ == "calling"@,
        !live_call && ringing ==> s@ == "ringing"@,
        !live_call && !ringing ==> s@ == "idle"@,
{
    if live_call {
        if connected {
            String::from_str("live")
        } else {
            String::from_str("calling")
        }
    } else if ringing {
        String::from_str("ringing")
    } else {
        String::from_str("idle")
    }
}

/// A row moved to another conversation id.
pub open spec fn moved(r: RowView, from: Seq<char>, to: Seq<char>) -> RowView {
    if r.conv_id == from {
        RowView { conv_id: to, ..r }
    } else {
        r
    }
}

/// The sequence numbers after a move: the target keeps the higher of the
/// two.
pub open spec fn seqs_moved(m: Map<Seq<char>, u64>, from: Seq<char>, to: Seq<char>) -> Map<
    Seq<char>,
    u64,
> {
    if m.contains_key(from) {
        let rest = m.remove(from);
        let have = if rest.contains_key(to) {
            rest[to]
        } else {
            0
        };
        rest.insert(to, if have >= m[from] { have } else { m[from] })
    } else {
        m
    }
}

/// A map entry moved to another key, unless the target already has one.
pub open spec fn entry_moved<V>(m: Map<Seq<char>, V>, from: Seq<char>, to: Seq<char>) -> Map<
    Seq<char>,
    V,
> {
    if m.contains_key(from) {
        let rest = m.remove(from);
        if rest.contains_key(to) {
            rest
        } else {
            rest.insert(to, m[from])
        }
    } else {
        m
    }
}

fn move_entry<V>(m: &mut TextMap<V>, from: &String, to: &String)
    requires
        old(m).wf(),
        from@ != to@,
    ensures
        final(m).wf(),
        final(m).map() == entry_moved(old(m).map(), from@, to@),
{
    if let Some(v) = m.remove(from) {
        match m.find(to) {
            Some(_) => {},
            None => {
                m.set(to.clone(), v);
            },
        }
    }
}

/// Moves a conversation to a new id: its rows, its sequence number (the
/// target keeping the higher), its nickname and its timer (the target's own
/// kept if it has one).
pub fn remap_conv_id(
    inbox: &mut Vec<DisplayRow>,
    next_seq: &mut SeqMap,
    nicknames: &mut NameMap,
    disappear: &mut SeqMap,
    from: &str,
    to: &str,
)
    requires
        old(next_seq).wf(),
        old(nicknames).wf(),
        old(disappear).wf(),
    ensures
        final(next_seq).wf(),
        final(nicknames).wf(),
        final(disappear).wf(),
        from@ == to@ ==> {
            &&& final(inbox)@ == old(inbox)@
            &&& final(next_seq).map() == old(next_seq).map()
            &&& final(nicknames).map() == old(nicknames).map()
            &&& final(disappear).map() == old(disappear).map()
        },
        from@ != to@ ==> {
            &&& final(inbox)@.len() == old(inbox)@.len()
            &&& forall|i: int|
                0 <= i < old(inbox)@.len() ==> #[trigger] final(inbox)@[i]@ == moved(
                    old(inbox)@[i]@,
                    from@,
                    to@,
                )
            &&& final(next_seq).map() == seqs_moved(old(next_seq).map(), from@, to@)
            &&& final(nicknames).map() == entry_moved(old(nicknames).map(), from@, to@)
            &&& final(disappear).map() == entry_moved(old(disappear).map(), from@, to@)
        },
{
    let f = String::from_str(from);
    let t = String::from_str(to);
    if f == t {
        return;
    }
    let mut i: usize = 0;
    while i < inbox.len()
        invariant
            i <= inbox@.len(),
            inbox@.len() == old(inbox)@.len(),
            f@ == from@,
            t@ == to@,
            forall|j: int|
                0 <= j < i ==> #[trigger] inbox@[j]@ == moved(old(inbox)@[j]@, from@, to@),
            forall|j: int| i <= j < inbox@.len() ==> #[trigger] inbox@[j] == old(inbox)@[j],
        decreases inbox@.len() - i,
    {
        if inbox[i].conv_id == f {
            let r = &inbox[i];
            let row = DisplayRow {
                conv_id: t.clone(),
                conv_seq: r.conv_seq,
                text: r.text.clone(),
                sent_at: r.sent_at,
                file_name: r.file_name.clone(),
                file_mime: r.file_mime.clone(),
                file_bytes: copy_bytes(&r.file_bytes),
                fetch_token: r.fetch_token.clone(),
                kind: r.kind.clone(),
                emoji: r.emoji.clone(),
                target: r.target,
                hidden: r.hidden,
                displayed_at: r.displayed_at,
            };
            inbox.set(i, row);
        }
        i = i + 1;
    }
    if let Some(seq) = next_seq.remove(&f) {
        let have = next_seq.get(&t);
        let keep = if have >= seq {
            have
        } else {
            seq
        };
        next_seq.set(t.clone(), keep);
    }
    move_entry(nicknames, &f, &t);
    move_entry(disappear, &f, &t);
}

// ---------------------------------------------------------------------------
// Call signals
// ---------------------------------------------------------------------------

/// The text a call signal shows: the call id in hexadecimal for ringing,
/// reject, cancel, end and ICE; nothing for the others.
pub open spec fn call_id_text(b: BodyView) -> Seq<char> {
    match b {
        BodyView::CallRinging(id) => hex_of(id),
        BodyView::CallReject(id) => hex_of(id),
        BodyView::CallCancel(id) => hex_of(id),
        BodyView::CallEnd(id) => hex_of(id),
        BodyView::CallIce(id, _) => hex_of(id),
        _ => seq![],
    }
}

/// A call signal ready to send: its number in the conversation, the
/// application plaintext, and the text it shows.
pub struct CallSignal {
    pub conv_seq: u64,
    pub plaintext: Vec<u8>,
    pub id_hex: String,
}

/// The computing half of sending a call signal: the conversation's next
/// number (taken even if the message cannot be encoded), the message with
/// that number and `now`, and the call id text.
pub fn call_signal(next_seq: &mut SeqMap, peer_hex: &str, body: AppBody, now: u64) -> (r: Result<
    CallSignal,
    CoreError,
>)
    requires
        old(next_seq).wf(),
        old(next_seq).at(peer_hex@) < u64::MAX,
    ensures
        final(next_seq).wf(),
        final(next_seq).map() == old(next_seq).map().insert(
            peer_hex@,
            (old(next_seq).at(peer_hex@) + 1) as u64,
        ),
        match encoded(
            MessageView {
                header: AppHeader {
                    conv_seq: (old(next_seq).at(peer_hex@) + 1) as u64,
                    sent_at: now,
                    reply_to: None,
                },
                body: body@,
            },
        ) {
            Ok(b) => r matches Ok(s) && s.conv_seq == old(next_seq).at(peer_hex@) + 1 && s.plaintext@
                == b && s.id_hex@ == call_id_text(body@),
            Err(f) => r matches Err(e) && reports(e, f),
        },
{
    let seq = bump_seq(next_seq, peer_hex);
    let id_hex = match &body {
        AppBody::CallRinging { call_id } => hex_bytes(call_id),
        AppBody::CallReject { call_id } => hex_bytes(call_id),
        AppBody::CallCancel { call_id } => hex_bytes(call_id),
        AppBody::CallEnd { call_id } => hex_bytes(call_id),
        AppBody::CallIce { call_id, .. } => hex_bytes(call_id),
        _ => String::new(),
    };
    let msg = AppMessage { header: AppHeader { conv_seq: seq, sent_at: now, reply_to: None }, body };
    let plaintext = crate::app::encode(&msg)?;
    Ok(CallSignal { conv_seq: seq, plaintext, id_hex })
}

/// The row a sent call signal shows: with `echo` it is appended to the
/// inbox as a control row; otherwise it is only returned.
pub fn call_row(
    inbox: &mut Vec<DisplayRow>,
    next_seq: &mut SeqMap,
    peer_hex: String,
    signal: &CallSignal,
    now: u64,
    kind: &str,
    echo: bool,
) -> (row: DisplayRow)
    requires
        old(next_seq).wf(),
    ensures
        echo ==> row@ == control_row(peer_hex@, signal.conv_seq, now, kind@, signal.id_hex@, 0),
        echo ==> rows_view(final(inbox)@) == rows_view(old(inbox)@).push(row@),
        echo ==> seq_after(*old(next_seq), *final(next_seq), peer_hex@, signal.conv_seq),
        !echo ==> row@ == (RowView {
            kind: kind@,
            ..text_row(peer_hex@, signal.conv_seq, signal.id_hex@, now)
        }),
        !echo ==> *final(inbox) == *old(inbox) && *final(next_seq) == *old(next_seq),
{
    if echo {
        push_control(inbox, next_seq, peer_hex, signal.conv_seq, now, kind, signal.id_hex.clone(), 0)
    } else {
        DisplayRow {
            conv_id: peer_hex,
            conv_seq: signal.conv_seq,
            text: signal.id_hex.clone(),
            sent_at: now,
            file_name: String::new(),
            file_mime: String::new(),
            file_bytes: Vec::new(),
            fetch_token: String::new(),
            kind: String::from_str(kind),
            emoji: String::new(),
            target: 0,
            hidden: false,
            displayed_at: now,
        }
    }
}


/// The wire lifetime a timer asks for: no timer, the default lifetime; a
/// timer of a minute or less, the one-minute bucket; any longer timer, a
/// day or a week included, the hour bucket.
pub proof fn law_ttl_buckets(secs: u64)
    ensures
        secs == 0 ==> ttl_of(secs) == TtlBucket::Default,
        1 <= secs <= 60 ==> ttl_of(secs) == TtlBucket::Seconds60,
        secs > 60 ==> ttl_of(secs) == TtlBucket::Hour,
{
}

/// Two timers above a minute give the same bucket, and it is never the
/// default one.
pub proof fn law_long_timers_share_a_bucket(a: u64, b: u64)
    requires
        a > 60,
        b > 60,
    ensures
        ttl_of(a) == ttl_of(b),
        ttl_of(a) != TtlBucket::Default,
{
}

/// What a control row shows: a timer change (`disappear`), a binding
/// conflict, and every call event (`call_...`) show their emoji field as
/// text; every other control (reactions, deletions, ...) shows no text.
pub proof fn law_control_text(
    conv_id: Seq<char>,
    conv_seq: u64,
    sent_at: u64,
    kind: Seq<char>,
    emoji: Seq<char>,
    target: u64,
)
    ensures
        (kind == "disappear"@ || kind == "binding_conflict"@ || (kind.len() >= 5 && kind.take(5)
            == "call_"@)) ==> control_row(conv_id, conv_seq, sent_at, kind, emoji, target).text
            == emoji,
        !(kind == "disappear"@ || kind == "binding_conflict"@ || (kind.len() >= 5 && kind.take(5)
            == "call_"@)) ==> control_row(conv_id, conv_seq, sent_at, kind, emoji, target).text
            == Seq::<char>::empty(),
        control_row(conv_id, conv_seq, sent_at, kind, emoji, target).emoji == emoji,
        control_row(conv_id, conv_seq, sent_at, kind, emoji, target).kind == kind,
        control_row(conv_id, conv_seq, sent_at, kind, emoji, target).conv_id == conv_id,
        control_row(conv_id, conv_seq, sent_at, kind, emoji, target).conv_seq == conv_seq,
        control_row(conv_id, conv_seq, sent_at, kind, emoji, target).target == target,
        control_row(conv_id, conv_seq, sent_at, kind, emoji, target).sent_at == sent_at,
        control_row(conv_id, conv_seq, sent_at, kind, emoji, target).displayed_at == sent_at,
        control_row(conv_id, conv_seq, sent_at, kind, emoji, target).hidden <==> kind == "deleted"@,
        control_row(conv_id, conv_seq, sent_at, kind, emoji, target).file_bytes.len() == 0,
        control_row(conv_id, conv_seq, sent_at, kind, emoji, target).file_name.len() == 0,
        control_row(conv_id, conv_seq, sent_at, kind, emoji, target).file_mime.len() == 0,
        control_row(conv_id, conv_seq, sent_at, kind, emoji, target).fetch_token.len() == 0,
{
    reveal_strlit("call_");
    assert("call_"@ =~= seq!['c', 'a', 'l', 'l', '_']);
}

} // verus!
