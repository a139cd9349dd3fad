//! Two lists an installation keeps in its vault: the group joins it is
//! waiting on (each with the host's answer to the accepted invite) and the
//! group invites it minted. The joins and invites themselves are held in
//! their own encodings.

use vstd::prelude::*;
use crate::cbor::{
    Value, ValueSpec, enc, parse, view_items, well_formed, nesting, law_decode_encode, lemma_nesting_items_bound,
    lemma_view_items_push, lemma_view_items_len,
};
use crate::error::CoreError;
use crate::home::{HostAccept, AcceptView, StoreFault, store_reports, accept_entries, accept_decoded, law_accept_roundtrip};
use crate::ids::{KEY_LEN, array_to_vec};

verus! {

/// A join waiting for the group's welcome: the group, the pending join in
/// its encoding, and what the host answered when the invite was accepted.
pub struct PendingEntry {
    pub group_id: [u8; KEY_LEN],
    pub pending: Vec<u8>,
    pub host: HostAccept,
}

pub struct PendingView {
    pub group_id: Seq<u8>,
    pub pending: Seq<u8>,
    pub host: AcceptView,
}

impl View for PendingEntry {
    type V = PendingView;

    open spec fn view(&self) -> PendingView {
        PendingView { group_id: self.group_id@, pending: self.pending@, host: self.host@ }
    }
}

pub open spec fn pendings_view(s: Seq<PendingEntry>) -> Seq<PendingView> {
    Seq::new(s.len(), |i: int| s[i]@)
}

pub open spec fn pending_row(e: PendingView) -> ValueSpec {
    ValueSpec::Array(
        seq![
            ValueSpec::Bytes(e.group_id),
            ValueSpec::Bytes(e.pending),
            ValueSpec::Bytes(enc(ValueSpec::Dict(accept_entries(e.host)))),
        ],
    )
}

pub open spec fn pending_rows(s: Seq<PendingView>) -> Seq<ValueSpec> {
    Seq::new(s.len(), |i: int| pending_row(s[i]))
}

/// A row: an array of the group id (exactly [`KEY_LEN`] bytes), the join's
/// bytes and the host's answer, which must read back.
pub open spec fn pending_from(v: ValueSpec) -> Result<PendingView, StoreFault> {
    match v {
        ValueSpec::Array(r) => if r.len() == 3 {
            match (r[0], r[1], r[2]) {
                (ValueSpec::Bytes(g), ValueSpec::Bytes(p), ValueSpec::Bytes(h)) => if g.len() == KEY_LEN {
                    match accept_decoded(h) {
                        Ok(a) => Ok(PendingView { group_id: g, pending: p, host: a }),
                        Err(f) => Err(f),
                    }
                } else {
                    Err(StoreFault::Corrupt)
                },
                _ => Err(StoreFault::Corrupt),
            }
        } else {
            Err(StoreFault::Corrupt)
        },
        _ => Err(StoreFault::Corrupt),
    }
}

/// The rows in order; the first that does not read decides the error.
pub open spec fn pendings_from(items: Seq<ValueSpec>) -> Result<Seq<PendingView>, StoreFault>
    decreases items.len(),
{
    if items.len() == 0 {
        Ok(seq![])
    } else {
        match pendings_from(items.drop_last()) {
            Err(f) => Err(f),
            Ok(s) => match pending_from(items.last()) {
                Err(f) => Err(f),
                Ok(e) => Ok(s.push(e)),
            },
        }
    }
}

/// The joins stored bytes hold: one array filling them exactly.
pub open spec fn pending_decoded(b: Seq<u8>) -> Result<Seq<PendingView>, StoreFault> {
    match parse(b, 0) {
        Some((ValueSpec::Array(items), n)) => if n == b.len() {
            pendings_from(items)
        } else {
            Err(StoreFault::Corrupt)
        },
        _ => Err(StoreFault::Corrupt),
    }
}

pub open spec fn invite_rows(s: Seq<Seq<u8>>) -> Seq<ValueSpec> {
    Seq::new(s.len(), |i: int| ValueSpec::Bytes(s[i]))
}

pub open spec fn invites_from(items: Seq<ValueSpec>) -> Option<Seq<Seq<u8>>>
    decreases items.len(),
{
    if items.len() == 0 {
        Some(seq![])
    } else {
        match (invites_from(items.drop_last()), items.last()) {
            (Some(s), ValueSpec::Bytes(b)) => Some(s.push(b)),
            _ => None,
        }
    }
}

/// The invites stored bytes hold: one array of byte strings filling them.
pub open spec fn invites_decoded(b: Seq<u8>) -> Option<Seq<Seq<u8>>> {
    match parse(b, 0) {
        Some((ValueSpec::Array(items), n)) => if n == b.len() {
            invites_from(items)
        } else {
            None
        },
        _ => None,
    }
}

pub open spec fn invites_view(s: Seq<Vec<u8>>) -> Seq<Seq<u8>> {
    Seq::new(s.len(), |i: int| s[i]@)
}

fn push_item(items: &mut Vec<Value>, v: Value)
    ensures
        view_items(final(items)@) == view_items(old(items)@).push(v@),
{
    proof {
        lemma_view_items_push(items@, v);
    }
    items.push(v);
}

/// The stored form of the waiting joins: one row per join, in order.
pub fn save_pending(entries: &Vec<PendingEntry>) -> (r: Vec<u8>)
    ensures
        r@ == enc(ValueSpec::Array(pending_rows(pendings_view(entries@)))),
{
    let ghost s = pendings_view(entries@);
    let mut items: Vec<Value> = Vec::new();
    let mut i: usize = 0;
    assert(view_items(items@) =~= pending_rows(s.take(0)));
    while i < entries.len()
        invariant
            s == pendings_view(entries@),
            i <= entries@.len(),
            view_items(items@) == pending_rows(s.take(i as int)),
        decreases entries@.len() - i,
    {
        let e = &entries[i];
        let mut row: Vec<Value> = Vec::new();
        let g = Value::Bytes(array_to_vec(e.group_id.as_slice()));
        let p = Value::Bytes(array_to_vec(e.pending.as_slice()));
        let h = Value::Bytes(e.host.encode());
        let ghost (gv, pv, hv) = (g@, p@, h@);
        assert(view_items(row@) =~= Seq::<ValueSpec>::empty());
        push_item(&mut row, g);
        push_item(&mut row, p);
        push_item(&mut row, h);
        assert(view_items(row@) =~= seq![gv, pv, hv]);
        push_item(&mut items, Value::Array(row));
        i = i + 1;
        assert(pending_rows(s.take(i as int)) =~= pending_rows(s.take(i - 1)).push(pending_row(s[i - 1])));
    }
    assert(s.take(i as int) =~= s);
    crate::cbor::encode(&Value::Array(items))
}

proof fn lemma_prefix_fails_pending(items: Seq<ValueSpec>, i: int, f: StoreFault)
    requires
        0 <= i < items.len(),
        pendings_from(items.take(i)) is Ok,
        pending_from(items[i]) == Err::<PendingView, StoreFault>(f),
    ensures
        pendings_from(items) == Err::<Seq<PendingView>, StoreFault>(f),
    decreases items.len(),
{
    if i < items.len() - 1 {
        assert(items.drop_last().take(i) =~= items.take(i));
        assert(items.drop_last()[i] == items[i]);
        lemma_prefix_fails_pending(items.drop_last(), i, f);
    } else {
        assert(items.drop_last() =~= items.take(i));
    }
}

/// Reads the waiting joins: nothing stored reads as none; bytes that are
/// not one array of well-formed rows are corrupt, and a host answer that
/// does not read back gives its own error.
pub fn load_pending(stored: Option<&[u8]>) -> (r: Result<Vec<PendingEntry>, CoreError>)
    ensures
        stored is None ==> (r matches Ok(v) && v@.len() == 0),
        stored matches Some(b) ==> match pending_decoded(b@) {
            Ok(s) => r matches Ok(v) && pendings_view(v@) == s,
            Err(f) => r matches Err(e) && store_reports(e, f),
        },
{
    let b = match stored {
        None => {
            return Ok(Vec::new());
        },
        Some(b) => b,
    };
    let items = match crate::cbor::decode(b) {
        Some(Value::Array(items)) => items,
        _ => {
            return Err(CoreError::VaultCorrupt);
        },
    };
    let mut out: Vec<PendingEntry> = Vec::new();
    let mut i: usize = 0;
    assert(Value::Array(items)@ == ValueSpec::Array(view_items(items@)));
    proof {
        lemma_view_items_len(items@);
        assert(view_items(items@).take(0) =~= Seq::<ValueSpec>::empty());
        assert(pendings_view(out@) =~= Seq::<PendingView>::empty());
    }
    while i < items.len()
        invariant
            i <= items@.len(),
            view_items(items@).len() == items@.len(),
            forall|j: int| 0 <= j < items@.len() ==> #[trigger] view_items(items@)[j] == items@[j]@,
            pendings_from(view_items(items@).take(i as int)) == Ok::<Seq<PendingView>, StoreFault>(
                pendings_view(out@),
            ),
            stored == Some(b),
            pending_decoded(b@) == pendings_from(view_items(items@)),
            out@.len() == i,
        decreases items@.len() - i,
    {
        let ghost all = view_items(items@);
        proof {
            assert(all.take(i + 1).drop_last() =~= all.take(i as int));
            assert(all.take(i + 1).last() == items@[i as int]@);
        }
        let e = match &items[i] {
            Value::Array(row) => {
                proof {
                    lemma_view_items_len(row@);
                }
                if row.len() != 3 {
                    proof {
                        lemma_prefix_fails_pending(all, i as int, StoreFault::Corrupt);
                    }
                    return Err(CoreError::VaultCorrupt);
                }
                match (&row[0], &row[1], &row[2]) {
                    (Value::Bytes(g), Value::Bytes(p), Value::Bytes(h)) => {
                        if g.len() != KEY_LEN {
                            proof {
                                lemma_prefix_fails_pending(all, i as int, StoreFault::Corrupt);
                            }
                            return Err(CoreError::VaultCorrupt);
                        }
                        let host = match HostAccept::decode(h.as_slice()) {
                            Ok(a) => a,
                            Err(e) => {
                                proof {
                                    let f = accept_decoded(h@)->Err_0;
                                    lemma_prefix_fails_pending(all, i as int, f);
                                }
                                return Err(e);
                            },
                        };
                        let mut gid = [0u8; KEY_LEN];
                        let mut k: usize = 0;
                        while k < KEY_LEN
                            invariant
                                k <= KEY_LEN,
                                g@.len() == KEY_LEN,
                                forall|j: int| 0 <= j < k ==> gid@[j] == g@[j],
                            decreases KEY_LEN - k,
                        {
                            gid[k] = g[k];
                            k = k + 1;
                        }
                        assert(gid@ =~= g@);
                        let e = PendingEntry { group_id: gid, pending: array_to_vec(p.as_slice()), host };
                        assert(pending_from(all[i as int]) == Ok::<PendingView, StoreFault>(e@));
                        e
                    },
                    _ => {
                        proof {
                            lemma_prefix_fails_pending(all, i as int, StoreFault::Corrupt);
                        }
                        return Err(CoreError::VaultCorrupt);
                    },
                }
            },
            _ => {
                proof {
                    lemma_prefix_fails_pending(all, i as int, StoreFault::Corrupt);
                }
                return Err(CoreError::VaultCorrupt);
            },
        };
        let ghost before = pendings_view(out@);
        let ghost ev = e@;
        out.push(e);
        assert(pendings_view(out@) =~= before.push(ev));
        i = i + 1;
    }
    assert(view_items(items@).take(i as int) =~= view_items(items@));
    Ok(out)
}

/// The stored form of the minted invites: an array of their encodings.
pub fn save_invites(invites: &Vec<Vec<u8>>) -> (r: Vec<u8>)
    ensures
        r@ == enc(ValueSpec::Array(invite_rows(invites_view(invites@)))),
{
    let ghost s = invites_view(invites@);
    let mut items: Vec<Value> = Vec::new();
    let mut i: usize = 0;
    assert(view_items(items@) =~= invite_rows(s.take(0)));
    while i < invites.len()
        invariant
            s == invites_view(invites@),
            i <= invites@.len(),
            view_items(items@) == invite_rows(s.take(i as int)),
        decreases invites@.len() - i,
    {
        push_item(&mut items, Value::Bytes(array_to_vec(invites[i].as_slice())));
        i = i + 1;
        assert(invite_rows(s.take(i as int)) =~= invite_rows(s.take(i - 1)).push(ValueSpec::Bytes(s[i - 1])));
    }
    assert(s.take(i as int) =~= s);
    crate::cbor::encode(&Value::Array(items))
}

proof fn lemma_prefix_fails_invites(items: Seq<ValueSpec>, i: int)
    requires
        0 <= i < items.len(),
        !(items[i] is Bytes),
    ensures
        invites_from(items) is None,
    decreases items.len(),
{
    if i < items.len() - 1 {
        assert(items.drop_last()[i] == items[i]);
        lemma_prefix_fails_invites(items.drop_last(), i);
    }
}

/// Reads the minted invites: nothing stored reads as none; anything but
/// one array of byte strings is corrupt.
pub fn load_invites(stored: Option<&[u8]>) -> (r: Result<Vec<Vec<u8>>, CoreError>)
    ensures
        stored is None ==> (r matches Ok(v) && v@.len() == 0),
        stored matches Some(b) ==> match invites_decoded(b@) {
            Some(s) => r matches Ok(v) && invites_view(v@) == s,
            None => r == Err::<Vec<Vec<u8>>, CoreError>(CoreError::VaultCorrupt),
        },
{
    let b = match stored {
        None => {
            return Ok(Vec::new());
        },
        Some(b) => b,
    };
    let items = match crate::cbor::decode(b) {
        Some(Value::Array(items)) => items,
        _ => {
            return Err(CoreError::VaultCorrupt);
        },
    };
    let mut out: Vec<Vec<u8>> = Vec::new();
    let mut i: usize = 0;
    assert(Value::Array(items)@ == ValueSpec::Array(view_items(items@)));
    proof {
        lemma_view_items_len(items@);
        assert(view_items(items@).take(0) =~= Seq::<ValueSpec>::empty());
        assert(invites_view(out@) =~= Seq::<Seq<u8>>::empty());
    }
    while i < items.len()
        invariant
            i <= items@.len(),
            view_items(items@).len() == items@.len(),
            forall|j: int| 0 <= j < items@.len() ==> #[trigger] view_items(items@)[j] == items@[j]@,
            invites_from(view_items(items@).take(i as int)) == Some(invites_view(out@)),
            stored == Some(b),
            invites_decoded(b@) == invites_from(view_items(items@)),
        decreases items@.len() - i,
    {
        let ghost all = view_items(items@);
        proof {
            assert(all.take(i + 1).drop_last() =~= all.take(i as int));
            assert(all.take(i + 1).last() == items@[i as int]@);
        }
        match &items[i] {
            Value::Bytes(b) => {
                let ghost before = invites_view(out@);
                out.push(array_to_vec(b.as_slice()));
                assert(invites_view(out@) =~= before.push(b@));
            },
            _ => {
                proof {
                    lemma_prefix_fails_invites(all, i as int);
                }
                return Err(CoreError::VaultCorrupt);
            },
        }
        i = i + 1;
    }
    assert(view_items(items@).take(i as int) =~= view_items(items@));
    Ok(out)
}

proof fn lemma_pendings_roundtrip(s: Seq<PendingView>)
    requires
        forall|i: int| 0 <= i < s.len() ==> accept_ok(#[trigger] s[i].host) && s[i].group_id.len() == KEY_LEN,
    ensures
        pendings_from(pending_rows(s)) == Ok::<Seq<PendingView>, StoreFault>(s),
    decreases s.len(),
{
    if s.len() > 0 {
        let d = s.drop_last();
        assert(pending_rows(s).drop_last() =~= pending_rows(d));
        assert forall|i: int| 0 <= i < d.len() implies accept_ok(#[trigger] d[i].host) && d[i].group_id.len()
            == KEY_LEN by {
            assert(d[i] == s[i]);
        }
        lemma_pendings_roundtrip(d);
        let e = s.last();
        assert(accept_ok(e.host) && e.group_id.len() == KEY_LEN) by {
            assert(s[s.len() - 1] == e);
        }
        law_accept_roundtrip(e.host);
        assert(pending_rows(s).last() == pending_row(e));
        assert(d.push(e) =~= s);
    } else {
        assert(pending_rows(s) =~= Seq::<ValueSpec>::empty());
        assert(s =~= Seq::<PendingView>::empty());
    }
}

/// The host answers that read back: every key field [`KEY_LEN`] bytes.
pub open spec fn accept_ok(a: AcceptView) -> bool {
    &&& a.pending_id.len() == KEY_LEN
    &&& a.credential_id.len() == KEY_LEN
    &&& a.credential_secret.len() == KEY_LEN
    &&& a.invitee_binding matches Some(b) ==> b.len() == KEY_LEN
}

/// Stored waiting joins read back as the same joins, in order.
pub proof fn law_pending_roundtrip(s: Seq<PendingView>)
    requires
        forall|i: int| 0 <= i < s.len() ==> accept_ok(#[trigger] s[i].host) && s[i].group_id.len() == KEY_LEN,
        well_formed(ValueSpec::Array(pending_rows(s))),
    ensures
        pending_decoded(enc(ValueSpec::Array(pending_rows(s)))) == Ok::<Seq<PendingView>, StoreFault>(s),
{
    let rows = pending_rows(s);
    assert forall|i: int| 0 <= i < rows.len() implies nesting(#[trigger] rows[i]) <= 1 by {
        let items = seq![
            ValueSpec::Bytes(s[i].group_id),
            ValueSpec::Bytes(s[i].pending),
            ValueSpec::Bytes(enc(ValueSpec::Dict(accept_entries(s[i].host)))),
        ];
        assert forall|j: int| 0 <= j < items.len() implies nesting(#[trigger] items[j]) <= 0 by {}
        lemma_nesting_items_bound(items, 0);
    }
    lemma_nesting_items_bound(rows, 1);
    law_decode_encode(ValueSpec::Array(rows));
    lemma_pendings_roundtrip(s);
}

proof fn lemma_invites_roundtrip(s: Seq<Seq<u8>>)
    ensures
        invites_from(invite_rows(s)) == Some(s),
    decreases s.len(),
{
    if s.len() > 0 {
        assert(invite_rows(s).drop_last() =~= invite_rows(s.drop_last()));
        lemma_invites_roundtrip(s.drop_last());
        assert(s.drop_last().push(s.last()) =~= s);
    } else {
        assert(invite_rows(s) =~= Seq::<ValueSpec>::empty());
        assert(s =~= Seq::<Seq<u8>>::empty());
    }
}

/// Stored invites read back as the same invites, in order.
pub proof fn law_invites_roundtrip(s: Seq<Seq<u8>>)
    requires
        well_formed(ValueSpec::Array(invite_rows(s))),
    ensures
        invites_decoded(enc(ValueSpec::Array(invite_rows(s)))) == Some(s),
{
    let rows = invite_rows(s);
    assert forall|i: int| 0 <= i < rows.len() implies nesting(#[trigger] rows[i]) <= 0 by {}
    lemma_nesting_items_bound(rows, 0);
    law_decode_encode(ValueSpec::Array(rows));
    lemma_invites_roundtrip(s);
}

} // verus!
