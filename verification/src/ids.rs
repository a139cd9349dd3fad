//! Fixed-size identifiers of the wire format.

use vstd::prelude::*;

verus! {

/// Length of keys, identity ids, server ids and tokens.
pub const KEY_LEN: usize = 32;

/// Length of a call id.
pub const CALL_ID_LEN: usize = 16;

/// Version tag of every wire object this build writes and accepts.
pub const PROTOCOL_VERSION: u64 = 1;

/// `bytes` as a key, when it has exactly [`KEY_LEN`] bytes.
pub fn copy_key(bytes: &[u8]) -> (r: Option<[u8; KEY_LEN]>)
    ensures
        r is Some <==> bytes@.len() == KEY_LEN,
        r matches Some(a) ==> a@ == bytes@,
{
    if bytes.len() != KEY_LEN {
        return None;
    }
    let mut a = [0u8; KEY_LEN];
    let mut i: usize = 0;
    while i < KEY_LEN
        invariant
            bytes@.len() == KEY_LEN,
            i <= KEY_LEN,
            forall|j: int| 0 <= j < i ==> a@[j] == bytes@[j],
        decreases KEY_LEN - i,
    {
        a[i] = bytes[i];
        i = i + 1;
    }
    assert(a@ =~= bytes@);
    Some(a)
}

/// `bytes` as a call id, when it has exactly [`CALL_ID_LEN`] bytes.
pub fn copy_call_id(bytes: &[u8]) -> (r: Option<[u8; CALL_ID_LEN]>)
    ensures
        r is Some <==> bytes@.len() == CALL_ID_LEN,
        r matches Some(a) ==> a@ == bytes@,
{
    if bytes.len() != CALL_ID_LEN {
        return None;
    }
    let mut a = [0u8; CALL_ID_LEN];
    let mut i: usize = 0;
    while i < CALL_ID_LEN
        invariant
            bytes@.len() == CALL_ID_LEN,
            i <= CALL_ID_LEN,
            forall|j: int| 0 <= j < i ==> a@[j] == bytes@[j],
        decreases CALL_ID_LEN - i,
    {
        a[i] = bytes[i];
        i = i + 1;
    }
    assert(a@ =~= bytes@);
    Some(a)
}

/// The bytes of an array, as a vector.
pub fn array_to_vec(a: &[u8]) -> (r: Vec<u8>)
    ensures
        r@ == a@,
{
    let mut out: Vec<u8> = Vec::new();
    let mut i: usize = 0;
    while i < a.len()
        invariant
            i <= a@.len(),
            out@ == a@.take(i as int),
        decreases a@.len() - i,
    {
        out.push(a[i]);
        i = i + 1;
        assert(out@ =~= a@.take(i as int));
    }
    assert(a@.take(i as int) =~= a@);
    out
}

} // verus!
