//! Deterministic CBOR (RFC 8949) for the subset the wire objects use:
//! unsigned integers, byte strings, text strings, arrays and maps keyed by
//! unsigned integers. Heads are always in shortest form, and the decoder
//! refuses any other form.

use vstd::prelude::*;
use vstd::utf8::*;

verus! {

broadcast use {
    vstd::seq::group_seq_axioms,
    vstd::utf8::encode_utf8_valid_utf8,
    vstd::utf8::encode_utf8_decode_utf8,
    vstd::utf8::decode_utf8_encode_utf8,
};

/// Major types.
pub const MAJOR_UINT: u8 = 0;
pub const MAJOR_BYTES: u8 = 2;
pub const MAJOR_TEXT: u8 = 3;
pub const MAJOR_ARRAY: u8 = 4;
pub const MAJOR_MAP: u8 = 5;

/// Arrays and maps nest at most this deep.
pub const MAX_DEPTH: usize = 16;

/// A CBOR data item of the supported subset.
#[derive(Debug)]
pub enum Value {
    Uint(u64),
    Bytes(Vec<u8>),
    Text(String),
    Array(Vec<Value>),
    Dict(Vec<(u64, Value)>),
}

/// The mathematical content of a [`Value`].
pub enum ValueSpec {
    Uint(u64),
    Bytes(Seq<u8>),
    Text(Seq<char>),
    Array(Seq<ValueSpec>),
    Dict(Seq<(u64, ValueSpec)>),
}

pub open spec fn view_value(v: Value) -> ValueSpec
    decreases v,
{
    match v {
        Value::Uint(n) => ValueSpec::Uint(n),
        Value::Bytes(b) => ValueSpec::Bytes(b@),
        Value::Text(s) => ValueSpec::Text(s@),
        Value::Array(items) => ValueSpec::Array(view_items(items@)),
        Value::Dict(entries) => ValueSpec::Dict(view_entries(entries@)),
    }
}

pub open spec fn view_items(s: Seq<Value>) -> Seq<ValueSpec>
    decreases s,
{
    if s.len() == 0 {
        seq![]
    } else {
        view_items(s.drop_last()).push(view_value(s.last()))
    }
}

pub open spec fn view_entries(s: Seq<(u64, Value)>) -> Seq<(u64, ValueSpec)>
    decreases s,
{
    if s.len() == 0 {
        seq![]
    } else {
        view_entries(s.drop_last()).push((s.last().0, view_value(s.last().1)))
    }
}

impl View for Value {
    type V = ValueSpec;

    open spec fn view(&self) -> ValueSpec {
        view_value(*self)
    }
}

/// Big-endian reading of two, four and eight bytes.
pub open spec fn be2(b0: u8, b1: u8) -> u64 {
    ((b0 as u64) << 8u64) | (b1 as u64)
}

pub open spec fn be4(b0: u8, b1: u8, b2: u8, b3: u8) -> u64 {
    ((b0 as u64) << 24u64) | ((b1 as u64) << 16u64) | ((b2 as u64) << 8u64) | (b3 as u64)
}

pub open spec fn be8(b0: u8, b1: u8, b2: u8, b3: u8, b4: u8, b5: u8, b6: u8, b7: u8) -> u64 {
    ((b0 as u64) << 56u64) | ((b1 as u64) << 48u64) | ((b2 as u64) << 40u64) | ((b3 as u64)
        << 32u64) | ((b4 as u64) << 24u64) | ((b5 as u64) << 16u64) | ((b6 as u64) << 8u64) | (
    b7 as u64)
}

/// Initial byte: major type in the top three bits, additional information below.
pub open spec fn initial(major: u8, info: u64) -> u8 {
    ((major as u64) * 32 + info) as u8
}

/// The shortest-form head of a data item.
pub open spec fn head(major: u8, arg: u64) -> Seq<u8> {
    if arg < 24 {
        seq![initial(major, arg)]
    } else if arg < 0x100 {
        seq![initial(major, 24), arg as u8]
    } else if arg < 0x1_0000 {
        seq![initial(major, 25), (arg >> 8u64) as u8, arg as u8]
    } else if arg < 0x1_0000_0000 {
        seq![
            initial(major, 26),
            (arg >> 24u64) as u8,
            (arg >> 16u64) as u8,
            (arg >> 8u64) as u8,
            arg as u8,
        ]
    } else {
        seq![
            initial(major, 27),
            (arg >> 56u64) as u8,
            (arg >> 48u64) as u8,
            (arg >> 40u64) as u8,
            (arg >> 32u64) as u8,
            (arg >> 24u64) as u8,
            (arg >> 16u64) as u8,
            (arg >> 8u64) as u8,
            arg as u8,
        ]
    }
}

/// The encoding of a data item.
pub open spec fn enc(v: ValueSpec) -> Seq<u8>
    decreases v,
{
    match v {
        ValueSpec::Uint(n) => head(MAJOR_UINT, n),
        ValueSpec::Bytes(b) => head(MAJOR_BYTES, b.len() as u64) + b,
        ValueSpec::Text(s) => head(MAJOR_TEXT, encode_utf8(s).len() as u64) + encode_utf8(s),
        ValueSpec::Array(items) => head(MAJOR_ARRAY, items.len() as u64) + enc_items(items),
        ValueSpec::Dict(entries) => head(MAJOR_MAP, entries.len() as u64) + enc_entries(entries),
    }
}

pub open spec fn enc_items(s: Seq<ValueSpec>) -> Seq<u8>
    decreases s,
{
    if s.len() == 0 {
        seq![]
    } else {
        enc(s[0]) + enc_items(s.drop_first())
    }
}

pub open spec fn enc_entries(s: Seq<(u64, ValueSpec)>) -> Seq<u8>
    decreases s,
{
    if s.len() == 0 {
        seq![]
    } else {
        head(MAJOR_UINT, s[0].0) + enc(s[0].1) + enc_entries(s.drop_first())
    }
}

/// Lengths fit the 64-bit head argument.
pub open spec fn well_formed(v: ValueSpec) -> bool
    decreases v, 1nat,
{
    match v {
        ValueSpec::Uint(_) => true,
        ValueSpec::Bytes(b) => b.len() <= u64::MAX,
        ValueSpec::Text(s) => encode_utf8(s).len() <= u64::MAX,
        ValueSpec::Array(items) => items.len() <= u64::MAX && well_formed_items(items),
        ValueSpec::Dict(entries) => entries.len() <= u64::MAX && well_formed_entries(entries),
    }
}

pub open spec fn well_formed_items(s: Seq<ValueSpec>) -> bool
    decreases s, 0nat,
{
    s.len() == 0 || (well_formed(s[0]) && well_formed_items(s.drop_first()))
}

pub open spec fn well_formed_entries(s: Seq<(u64, ValueSpec)>) -> bool
    decreases s, 0nat,
{
    s.len() == 0 || (well_formed(s[0].1) && well_formed_entries(s.drop_first()))
}

/// How deeply arrays and maps nest inside a data item (0 for a scalar).
pub open spec fn nesting(v: ValueSpec) -> nat
    decreases v,
{
    match v {
        ValueSpec::Array(items) => 1 + nesting_items(items),
        ValueSpec::Dict(entries) => 1 + nesting_entries(entries),
        _ => 0,
    }
}

pub open spec fn nesting_items(s: Seq<ValueSpec>) -> nat
    decreases s,
{
    if s.len() == 0 {
        0
    } else {
        let a = nesting(s[0]);
        let b = nesting_items(s.drop_first());
        if a >= b {
            a
        } else {
            b
        }
    }
}

pub open spec fn nesting_entries(s: Seq<(u64, ValueSpec)>) -> nat
    decreases s,
{
    if s.len() == 0 {
        0
    } else {
        let a = nesting(s[0].1);
        let b = nesting_entries(s.drop_first());
        if a >= b {
            a
        } else {
            b
        }
    }
}

pub proof fn lemma_view_items_len(s: Seq<Value>)
    ensures
        view_items(s).len() == s.len(),
        forall|i: int| 0 <= i < s.len() ==> #[trigger] view_items(s)[i] == view_value(s[i]),
    decreases s.len(),
{
    if s.len() > 0 {
        lemma_view_items_len(s.drop_last());
    }
}

pub proof fn lemma_view_entries_len(s: Seq<(u64, Value)>)
    ensures
        view_entries(s).len() == s.len(),
        forall|i: int|
            0 <= i < s.len() ==> #[trigger] view_entries(s)[i] == (s[i].0, view_value(s[i].1)),
    decreases s.len(),
{
    if s.len() > 0 {
        lemma_view_entries_len(s.drop_last());
    }
}

proof fn lemma_enc_items_push(s: Seq<ValueSpec>, v: ValueSpec)
    ensures
        enc_items(s.push(v)) == enc_items(s) + enc(v),
    decreases s.len(),
{
    if s.len() == 0 {
        assert(s.push(v).drop_first() =~= Seq::<ValueSpec>::empty());
        assert(enc_items(Seq::<ValueSpec>::empty()) == Seq::<u8>::empty());
        assert(s.push(v)[0] == v);
        assert(enc_items(s.push(v)) =~= enc(v));
    } else {
        assert(s.push(v).drop_first() =~= s.drop_first().push(v));
        lemma_enc_items_push(s.drop_first(), v);
        assert(enc_items(s.push(v)) =~= enc_items(s) + enc(v));
    }
}

proof fn lemma_enc_entries_push(s: Seq<(u64, ValueSpec)>, e: (u64, ValueSpec))
    ensures
        enc_entries(s.push(e)) == enc_entries(s) + head(MAJOR_UINT, e.0) + enc(e.1),
    decreases s.len(),
{
    if s.len() == 0 {
        assert(s.push(e).drop_first() =~= Seq::<(u64, ValueSpec)>::empty());
        assert(enc_entries(Seq::<(u64, ValueSpec)>::empty()) == Seq::<u8>::empty());
        assert(s.push(e)[0] == e);
        assert(enc_entries(s.push(e)) =~= head(MAJOR_UINT, e.0) + enc(e.1));
    } else {
        assert(s.push(e).drop_first() =~= s.drop_first().push(e));
        lemma_enc_entries_push(s.drop_first(), e);
        assert(enc_entries(s.push(e)) =~= enc_entries(s) + head(MAJOR_UINT, e.0) + enc(e.1));
    }
}

proof fn lemma_well_formed_items_push(s: Seq<ValueSpec>, v: ValueSpec)
    ensures
        well_formed_items(s.push(v)) == (well_formed_items(s) && well_formed(v)),
    decreases s.len(),
{
    if s.len() == 0 {
        assert(s.push(v).drop_first() =~= s);
    } else {
        assert(s.push(v).drop_first() =~= s.drop_first().push(v));
        lemma_well_formed_items_push(s.drop_first(), v);
    }
}

proof fn lemma_well_formed_entries_push(s: Seq<(u64, ValueSpec)>, e: (u64, ValueSpec))
    ensures
        well_formed_entries(s.push(e)) == (well_formed_entries(s) && well_formed(e.1)),
    decreases s.len(),
{
    if s.len() == 0 {
        assert(s.push(e).drop_first() =~= s);
    } else {
        assert(s.push(e).drop_first() =~= s.drop_first().push(e));
        lemma_well_formed_entries_push(s.drop_first(), e);
    }
}

fn push_head(out: &mut Vec<u8>, major: u8, arg: u64)
    requires
        major < 8,
    ensures
        final(out)@ == old(out)@ + head(major, arg),
{
    let m: u64 = major as u64 * 32;
    if arg < 24 {
        out.push((m + arg) as u8);
    } else if arg < 0x100 {
        out.push((m + 24) as u8);
        out.push(arg as u8);
    } else if arg < 0x1_0000 {
        out.push((m + 25) as u8);
        out.push((arg >> 8u64) as u8);
        out.push(arg as u8);
    } else if arg < 0x1_0000_0000 {
        out.push((m + 26) as u8);
        out.push((arg >> 24u64) as u8);
        out.push((arg >> 16u64) as u8);
        out.push((arg >> 8u64) as u8);
        out.push(arg as u8);
    } else {
        out.push((m + 27) as u8);
        out.push((arg >> 56u64) as u8);
        out.push((arg >> 48u64) as u8);
        out.push((arg >> 40u64) as u8);
        out.push((arg >> 32u64) as u8);
        out.push((arg >> 24u64) as u8);
        out.push((arg >> 16u64) as u8);
        out.push((arg >> 8u64) as u8);
        out.push(arg as u8);
    }
    assert(final(out)@ =~= old(out)@ + head(major, arg));
}

fn push_bytes(out: &mut Vec<u8>, bytes: &[u8])
    ensures
        final(out)@ == old(out)@ + bytes@,
{
    let mut i: usize = 0;
    while i < bytes.len()
        invariant
            i <= bytes@.len(),
            out@ == old(out)@ + bytes@.take(i as int),
        decreases bytes@.len() - i,
    {
        out.push(bytes[i]);
        i = i + 1;
        assert(out@ =~= old(out)@ + bytes@.take(i as int));
    }
    assert(bytes@.take(i as int) =~= bytes@);
}

/// Append the encoding of `v` to `out`.
pub fn encode_into(v: &Value, out: &mut Vec<u8>)
    ensures
        final(out)@ == old(out)@ + enc(v@),
        well_formed(v@),
    decreases v,
{
    match v {
        Value::Uint(n) => push_head(out, MAJOR_UINT, *n),
        Value::Bytes(b) => {
            push_head(out, MAJOR_BYTES, b.len() as u64);
            push_bytes(out, b.as_slice());
            assert(out@ =~= old(out)@ + enc(v@));
        },
        Value::Text(s) => {
            let bytes = s.as_str().as_bytes();
            push_head(out, MAJOR_TEXT, bytes.len() as u64);
            push_bytes(out, bytes);
            assert(out@ =~= old(out)@ + enc(v@));
        },
        Value::Array(items) => {
            push_head(out, MAJOR_ARRAY, items.len() as u64);
            let ghost start = out@;
            let mut i: usize = 0;
            while i < items.len()
                invariant
                    i <= items@.len(),
                    *v == Value::Array(*items),
                    out@ == start + enc_items(view_items(items@.take(i as int))),
                    well_formed_items(view_items(items@.take(i as int))),
                decreases items@.len() - i,
            {
                proof {
                    assert(decreases_to!(*v => (*v)->Array_0));
                    assert(decreases_to!(*items => items@));
                    assert(decreases_to!(items@ => items@[i as int]));
                    assert(decreases_to!(*v => items@[i as int]));
                }
                encode_into(&items[i], out);
                proof {
                    assert(items@.take(i + 1).drop_last() =~= items@.take(i as int));
                    lemma_enc_items_push(view_items(items@.take(i as int)), view_value(items@[i as int]));
                    lemma_well_formed_items_push(
                        view_items(items@.take(i as int)),
                        view_value(items@[i as int]),
                    );
                }
                i = i + 1;
            }
            proof {
                lemma_view_items_len(items@);
                assert(items@.take(i as int) =~= items@);
                assert(out@ =~= old(out)@ + enc(v@));
            }
        },
        Value::Dict(entries) => {
            push_head(out, MAJOR_MAP, entries.len() as u64);
            let ghost start = out@;
            let mut i: usize = 0;
            while i < entries.len()
                invariant
                    i <= entries@.len(),
                    *v == Value::Dict(*entries),
                    out@ == start + enc_entries(view_entries(entries@.take(i as int))),
                    well_formed_entries(view_entries(entries@.take(i as int))),
                decreases entries@.len() - i,
            {
                let e = &entries[i];
                proof {
                    assert(decreases_to!(*v => (*v)->Dict_0));
                    assert(decreases_to!(*entries => entries@));
                    assert(decreases_to!(entries@ => entries@[i as int]));
                    assert(decreases_to!(entries@[i as int] => entries@[i as int].1));
                    assert(decreases_to!(*v => entries@[i as int].1));
                }
                push_head(out, MAJOR_UINT, e.0);
                encode_into(&e.1, out);
                proof {
                    assert(entries@.take(i + 1).drop_last() =~= entries@.take(i as int));
                    lemma_enc_entries_push(
                        view_entries(entries@.take(i as int)),
                        (entries@[i as int].0, view_value(entries@[i as int].1)),
                    );
                    lemma_well_formed_entries_push(
                        view_entries(entries@.take(i as int)),
                        (entries@[i as int].0, view_value(entries@[i as int].1)),
                    );
                }
                i = i + 1;
            }
            proof {
                lemma_view_entries_len(entries@);
                assert(entries@.take(i as int) =~= entries@);
                assert(out@ =~= old(out)@ + enc(v@));
            }
        },
    }
}

/// The encoding of `v`.
pub fn encode(v: &Value) -> (r: Vec<u8>)
    ensures
        r@ == enc(v@),
        well_formed(v@),
{
    let mut out = Vec::new();
    encode_into(v, &mut out);
    assert(out@ =~= enc(v@));
    out
}


/// Reads a head: major type, argument and the number of bytes it occupies.
/// Only the shortest form of each argument is accepted.
#[verifier::opaque]
pub open spec fn parse_head(b: Seq<u8>) -> Option<(u8, u64, int)> {
    if b.len() == 0 {
        None
    } else {
        let major = b[0] >> 5u8;
        let info = b[0] & 0x1fu8;
        if info < 24 {
            Some((major, info as u64, 1))
        } else if info == 24 {
            if b.len() >= 2 && b[1] >= 24 {
                Some((major, b[1] as u64, 2))
            } else {
                None
            }
        } else if info == 25 {
            if b.len() >= 3 && be2(b[1], b[2]) >= 0x100 {
                Some((major, be2(b[1], b[2]), 3))
            } else {
                None
            }
        } else if info == 26 {
            if b.len() >= 5 && be4(b[1], b[2], b[3], b[4]) >= 0x1_0000 {
                Some((major, be4(b[1], b[2], b[3], b[4]), 5))
            } else {
                None
            }
        } else if info == 27 {
            if b.len() >= 9 && be8(b[1], b[2], b[3], b[4], b[5], b[6], b[7], b[8])
                >= 0x1_0000_0000 {
                Some((major, be8(b[1], b[2], b[3], b[4], b[5], b[6], b[7], b[8]), 9))
            } else {
                None
            }
        } else {
            None
        }
    }
}

/// Reads one data item from the front of `b` at nesting level `depth`;
/// returns it with the number of bytes it occupies.
pub open spec fn parse(b: Seq<u8>, depth: nat) -> Option<(ValueSpec, int)>
    decreases b.len(), 0nat,
{
    match parse_head(b) {
        None => None,
        Some((major, arg, h)) => {
            let rest = b.skip(h);
            if major == MAJOR_UINT {
                Some((ValueSpec::Uint(arg), h))
            } else if major == MAJOR_BYTES {
                if arg <= rest.len() {
                    Some((ValueSpec::Bytes(rest.take(arg as int)), h + arg))
                } else {
                    None
                }
            } else if major == MAJOR_TEXT {
                if arg <= rest.len() && valid_utf8(rest.take(arg as int)) {
                    Some((ValueSpec::Text(decode_utf8(rest.take(arg as int))), h + arg))
                } else {
                    None
                }
            } else if major == MAJOR_ARRAY {
                if depth < MAX_DEPTH && 1 <= h <= b.len() {
                    match parse_items(rest, arg as nat, depth + 1) {
                        Some((items, k)) => Some((ValueSpec::Array(items), h + k)),
                        None => None,
                    }
                } else {
                    None
                }
            } else if major == MAJOR_MAP {
                if depth < MAX_DEPTH && 1 <= h <= b.len() {
                    match parse_entries(rest, arg as nat, depth + 1) {
                        Some((entries, k)) => Some((ValueSpec::Dict(entries), h + k)),
                        None => None,
                    }
                } else {
                    None
                }
            } else {
                None
            }
        },
    }
}

/// Reads `n` data items in a row.
pub open spec fn parse_items(b: Seq<u8>, n: nat, depth: nat) -> Option<(Seq<ValueSpec>, int)>
    decreases b.len(), 1nat, n,
{
    if n == 0 {
        Some((seq![], 0))
    } else {
        match parse(b, depth) {
            None => None,
            Some((v, k)) => {
                if 1 <= k <= b.len() {
                    match parse_items(b.skip(k), (n - 1) as nat, depth) {
                        Some((vs, k2)) => Some((seq![v] + vs, k + k2)),
                        None => None,
                    }
                } else {
                    None
                }
            },
        }
    }
}

/// Reads `n` map entries in a row: each an unsigned integer key, then a value.
pub open spec fn parse_entries(b: Seq<u8>, n: nat, depth: nat) -> Option<
    (Seq<(u64, ValueSpec)>, int),
>
    decreases b.len(), 1nat, n,
{
    if n == 0 {
        Some((seq![], 0))
    } else {
        match parse_head(b) {
            Some((major, key, h)) => {
                if major == MAJOR_UINT && 1 <= h <= b.len() {
                    match parse(b.skip(h), depth) {
                        None => None,
                        Some((v, k)) => {
                            if 1 <= k <= b.len() - h {
                                match parse_entries(b.skip(h + k), (n - 1) as nat, depth) {
                                    Some((es, k2)) => Some((seq![(key, v)] + es, h + k + k2)),
                                    None => None,
                                }
                            } else {
                                None
                            }
                        },
                    }
                } else {
                    None
                }
            },
            None => None,
        }
    }
}

/// `String::from_utf8`: the bytes as a string exactly when they are valid
/// UTF-8 (std documents `Err` for any other input).
#[verifier::external_body]
pub(crate) fn string_from_utf8(v: Vec<u8>) -> (r: Option<String>)
    ensures
        r is Some <==> valid_utf8(v@),
        r matches Some(s) ==> s@ == decode_utf8(v@),
{
    String::from_utf8(v).ok()
}

fn decode_head(b: &[u8], pos: usize) -> (r: Option<(u8, u64, usize)>)
    requires
        pos <= b@.len(),
    ensures
        match r {
            Some((m, a, h)) => parse_head(b@.skip(pos as int)) == Some((m, a, h as int)) && 1 <= h
                <= b@.len() - pos,
            None => parse_head(b@.skip(pos as int)) is None,
        },
{
    let ghost s = b@.skip(pos as int);
    proof {
        reveal(parse_head);
    }
    let len = b.len() - pos;
    if len == 0 {
        return None;
    }
    let fb = b[pos];
    let major = fb >> 5u8;
    let info = fb & 0x1fu8;
    assert(s[0] == fb);
    if info < 24 {
        Some((major, info as u64, 1))
    } else if info == 24 {
        if len >= 2 && b[pos + 1] >= 24 {
            assert(s[1] == b@[pos + 1]);
            Some((major, b[pos + 1] as u64, 2))
        } else {
            None
        }
    } else if info == 25 {
        if len >= 3 {
            let (b1, b2) = (b[pos + 1], b[pos + 2]);
            assert(s[1] == b1 && s[2] == b2);
            let a = ((b1 as u64) << 8u64) | (b2 as u64);
            if a >= 0x100 {
                Some((major, a, 3))
            } else {
                None
            }
        } else {
            None
        }
    } else if info == 26 {
        if len >= 5 {
            let (b1, b2, b3, b4) = (b[pos + 1], b[pos + 2], b[pos + 3], b[pos + 4]);
            assert(s[1] == b1 && s[2] == b2 && s[3] == b3 && s[4] == b4);
            let a = ((b1 as u64) << 24u64) | ((b2 as u64) << 16u64) | ((b3 as u64) << 8u64) | (
            b4 as u64);
            if a >= 0x1_0000 {
                Some((major, a, 5))
            } else {
                None
            }
        } else {
            None
        }
    } else if info == 27 {
        if len >= 9 {
            let (b1, b2, b3, b4) = (b[pos + 1], b[pos + 2], b[pos + 3], b[pos + 4]);
            let (b5, b6, b7, b8) = (b[pos + 5], b[pos + 6], b[pos + 7], b[pos + 8]);
            assert(s[1] == b1 && s[2] == b2 && s[3] == b3 && s[4] == b4);
            assert(s[5] == b5 && s[6] == b6 && s[7] == b7 && s[8] == b8);
            let a = ((b1 as u64) << 56u64) | ((b2 as u64) << 48u64) | ((b3 as u64) << 40u64) | ((
            b4 as u64) << 32u64) | ((b5 as u64) << 24u64) | ((b6 as u64) << 16u64) | ((b7 as u64)
                << 8u64) | (b8 as u64);
            if a >= 0x1_0000_0000 {
                Some((major, a, 9))
            } else {
                None
            }
        } else {
            None
        }
    } else {
        None
    }
}

pub fn copy_range(b: &[u8], start: usize, end: usize) -> (r: Vec<u8>)
    requires
        start <= end <= b@.len(),
    ensures
        r@ == b@.subrange(start as int, end as int),
{
    let mut out: Vec<u8> = Vec::new();
    let mut i = start;
    while i < end
        invariant
            start <= i <= end,
            end <= b@.len(),
            out@ == b@.subrange(start as int, i as int),
        decreases end - i,
    {
        out.push(b[i]);
        i = i + 1;
        assert(out@ =~= b@.subrange(start as int, i as int));
    }
    out
}

proof fn lemma_parse_head_len(b: Seq<u8>)
    ensures
        parse_head(b) matches Some((_, _, h)) ==> 1 <= h <= b.len(),
{
    reveal(parse_head);
}

proof fn lemma_parse_nested(s: Seq<u8>, depth: nat)
    requires
        parse_head(s) matches Some((m, _, _)) && (m == MAJOR_ARRAY || m == MAJOR_MAP),
        depth < MAX_DEPTH,
    ensures
        ({
            let (m, arg, h) = parse_head(s)->0;
            if m == MAJOR_ARRAY {
                parse(s, depth) == match parse_items(s.skip(h), arg as nat, depth + 1) {
                    Some((items, k)) => Some((ValueSpec::Array(items), h + k)),
                    None => None,
                }
            } else {
                parse(s, depth) == match parse_entries(s.skip(h), arg as nat, depth + 1) {
                    Some((es, k)) => Some((ValueSpec::Dict(es), h + k)),
                    None => None,
                }
            }
        }),
{
    lemma_parse_head_len(s);
}

proof fn lemma_items_step(b: Seq<u8>, cur: int, end: int, n: nat, depth: nat, v: ValueSpec)
    requires
        0 <= cur < end <= b.len(),
        n > 0,
        parse(b.skip(cur), depth) == Some((v, end - cur)),
    ensures
        parse_items(b.skip(cur), n, depth) == match parse_items(b.skip(end), (n - 1) as nat, depth) {
            Some((vs, k)) => Some((seq![v] + vs, end - cur + k)),
            None => None,
        },
{
    assert(b.skip(cur).skip(end - cur) =~= b.skip(end));
}

proof fn lemma_entries_step(
    b: Seq<u8>,
    cur: int,
    vpos: int,
    end: int,
    n: nat,
    depth: nat,
    key: u64,
    v: ValueSpec,
)
    requires
        0 <= cur < vpos < end <= b.len(),
        n > 0,
        parse_head(b.skip(cur)) == Some((MAJOR_UINT, key, vpos - cur)),
        parse(b.skip(vpos), depth) == Some((v, end - vpos)),
    ensures
        parse_entries(b.skip(cur), n, depth) == match parse_entries(
            b.skip(end),
            (n - 1) as nat,
            depth,
        ) {
            Some((es, k)) => Some((seq![(key, v)] + es, end - cur + k)),
            None => None,
        },
{
    assert(b.skip(cur).skip(vpos - cur) =~= b.skip(vpos));
    assert(b.skip(cur).skip(vpos - cur).skip(end - vpos) =~= b.skip(end));
    assert(b.skip(cur).skip((vpos - cur) + (end - vpos)) =~= b.skip(end));
}

proof fn lemma_entries_fail(b: Seq<u8>, cur: int, vpos: int, n: nat, depth: nat, key: u64)
    requires
        0 <= cur < vpos <= b.len(),
        n > 0,
        parse_head(b.skip(cur)) == Some((MAJOR_UINT, key, vpos - cur)),
        parse(b.skip(vpos), depth) is None,
    ensures
        parse_entries(b.skip(cur), n, depth) is None,
{
    assert(b.skip(cur).skip(vpos - cur) =~= b.skip(vpos));
}

/// Decodes `n` data items in a row, the first at `start`.
fn decode_items(b: &[u8], start: usize, n: u64, depth: usize) -> (r: Option<(Vec<Value>, usize)>)
    requires
        start <= b@.len(),
        depth <= MAX_DEPTH,
    ensures
        match r {
            Some((items, end)) => start <= end <= b@.len() && parse_items(
                b@.skip(start as int),
                n as nat,
                depth as nat,
            ) == Some((view_items(items@), end - start)),
            None => parse_items(b@.skip(start as int), n as nat, depth as nat) is None,
        },
    decreases b@.len() - start, 1nat,
{
    let mut items: Vec<Value> = Vec::new();
    let mut cur = start;
    let mut i: u64 = 0;
    proof {
        assert(view_items(items@) + Seq::<ValueSpec>::empty() =~= view_items(items@));
    }
    while i < n
        invariant
            start <= cur <= b@.len(),
            i <= n,
            depth <= MAX_DEPTH,
            parse_items(b@.skip(start as int), n as nat, depth as nat) == match parse_items(
                b@.skip(cur as int),
                (n - i) as nat,
                depth as nat,
            ) {
                Some((vs, k)) => Some((view_items(items@) + vs, cur - start + k)),
                None => None,
            },
        decreases n - i,
    {
        match decode_at(b, cur, depth) {
            None => {
                return None;
            },
            Some((v, end)) => {
                proof {
                    lemma_items_step(b@, cur as int, end as int, (n - i) as nat, depth as nat, v@);
                    assert(items@.push(v).drop_last() =~= items@);
                    assert(view_items(items@.push(v)) == view_items(items@).push(v@));
                    assert forall|vs: Seq<ValueSpec>|
                        view_items(items@) + (seq![v@] + vs) =~= view_items(items@).push(v@)
                            + vs by {}
                }
                items.push(v);
                cur = end;
                i = i + 1;
            },
        }
    }
    proof {
        assert(view_items(items@) + Seq::<ValueSpec>::empty() =~= view_items(items@));
    }
    Some((items, cur))
}

/// Decodes `n` map entries in a row, the first at `start`.
fn decode_entries(b: &[u8], start: usize, n: u64, depth: usize) -> (r: Option<
    (Vec<(u64, Value)>, usize),
>)
    requires
        start <= b@.len(),
        depth <= MAX_DEPTH,
    ensures
        match r {
            Some((es, end)) => start <= end <= b@.len() && parse_entries(
                b@.skip(start as int),
                n as nat,
                depth as nat,
            ) == Some((view_entries(es@), end - start)),
            None => parse_entries(b@.skip(start as int), n as nat, depth as nat) is None,
        },
    decreases b@.len() - start, 1nat,
{
    let mut entries: Vec<(u64, Value)> = Vec::new();
    let mut cur = start;
    let mut i: u64 = 0;
    proof {
        assert(view_entries(entries@) + Seq::<(u64, ValueSpec)>::empty() =~= view_entries(
            entries@,
        ));
    }
    while i < n
        invariant
            start <= cur <= b@.len(),
            i <= n,
            depth <= MAX_DEPTH,
            parse_entries(b@.skip(start as int), n as nat, depth as nat) == match parse_entries(
                b@.skip(cur as int),
                (n - i) as nat,
                depth as nat,
            ) {
                Some((es, k)) => Some((view_entries(entries@) + es, cur - start + k)),
                None => None,
            },
        decreases n - i,
    {
        let (kmajor, key, kh) = match decode_head(b, cur) {
            Some((m, a, hh)) => (m, a, hh),
            None => {
                return None;
            },
        };
        if kmajor != MAJOR_UINT {
            return None;
        }
        let total = b.len();
        assert(kh <= total - cur);
        let vpos = cur + kh;
        match decode_at(b, vpos, depth) {
            None => {
                proof {
                    lemma_entries_fail(b@, cur as int, vpos as int, (n - i) as nat, depth as nat, key);
                }
                return None;
            },
            Some((v, end)) => {
                proof {
                    lemma_entries_step(
                        b@,
                        cur as int,
                        vpos as int,
                        end as int,
                        (n - i) as nat,
                        depth as nat,
                        key,
                        v@,
                    );
                    assert(entries@.push((key, v)).drop_last() =~= entries@);
                    assert(view_entries(entries@.push((key, v))) == view_entries(entries@).push(
                        (key, v@),
                    ));
                    assert forall|es: Seq<(u64, ValueSpec)>|
                        view_entries(entries@) + (seq![(key, v@)] + es) =~= view_entries(
                            entries@,
                        ).push((key, v@)) + es by {}
                }
                entries.push((key, v));
                cur = end;
                i = i + 1;
            },
        }
    }
    proof {
        assert(view_entries(entries@) + Seq::<(u64, ValueSpec)>::empty() =~= view_entries(
            entries@,
        ));
    }
    Some((entries, cur))
}

/// Decodes the data item that starts at `pos`, at nesting level `depth`;
/// returns it with the position just past it.
pub fn decode_at(b: &[u8], pos: usize, depth: usize) -> (r: Option<(Value, usize)>)
    requires
        pos <= b@.len(),
        depth <= MAX_DEPTH,
    ensures
        match r {
            Some((v, end)) => pos < end <= b@.len() && parse(b@.skip(pos as int), depth as nat)
                == Some((v@, end - pos)),
            None => parse(b@.skip(pos as int), depth as nat) is None,
        },
    decreases b@.len() - pos, 0nat,
{
    let ghost s = b@.skip(pos as int);
    let (major, arg, h) = match decode_head(b, pos) {
        Some((m, a, hh)) => (m, a, hh),
        None => {
            return None;
        },
    };
    let total = b.len();
    assert(h <= total - pos);
    let start = pos + h;
    let avail = b.len() - start;
    assert(s.skip(h as int) =~= b@.skip(start as int));
    if major == MAJOR_UINT {
        Some((Value::Uint(arg), start))
    } else if major == MAJOR_BYTES {
        if arg <= avail as u64 {
            let end = start + arg as usize;
            let bytes = copy_range(b, start, end);
            assert(bytes@ =~= s.skip(h as int).take(arg as int));
            Some((Value::Bytes(bytes), end))
        } else {
            None
        }
    } else if major == MAJOR_TEXT {
        if arg <= avail as u64 {
            let end = start + arg as usize;
            let bytes = copy_range(b, start, end);
            assert(bytes@ =~= s.skip(h as int).take(arg as int));
            match string_from_utf8(bytes) {
                Some(text) => Some((Value::Text(text), end)),
                None => None,
            }
        } else {
            None
        }
    } else if major == MAJOR_ARRAY {
        if depth >= MAX_DEPTH {
            return None;
        }
        proof {
            lemma_parse_nested(s, depth as nat);
        }
        match decode_items(b, start, arg, depth + 1) {
            Some((items, end)) => Some((Value::Array(items), end)),
            None => None,
        }
    } else if major == MAJOR_MAP {
        if depth >= MAX_DEPTH {
            return None;
        }
        proof {
            lemma_parse_nested(s, depth as nat);
        }
        match decode_entries(b, start, arg, depth + 1) {
            Some((es, end)) => Some((Value::Dict(es), end)),
            None => None,
        }
    } else {
        None
    }
}

proof fn lemma_initial(m: u8, info: u64)
    requires
        m < 8,
        info < 32,
    ensures
        initial(m, info) >> 5u8 == m,
        (initial(m, info) & 0x1fu8) as u64 == info,
{
    assert(((((m as u64) * 32 + info) as u8) >> 5u8) == m && (((((m as u64) * 32 + info) as u8)
        & 0x1fu8) as u64) == info) by (bit_vector)
        requires
            m < 8,
            info < 32,
    ;
}

proof fn lemma_be_roundtrip(a: u64)
    ensures
        a < 0x100 ==> (a as u8) as u64 == a,
        a < 0x1_0000 ==> be2((a >> 8u64) as u8, a as u8) == a,
        a < 0x1_0000_0000 ==> be4(
            (a >> 24u64) as u8,
            (a >> 16u64) as u8,
            (a >> 8u64) as u8,
            a as u8,
        ) == a,
        be8(
            (a >> 56u64) as u8,
            (a >> 48u64) as u8,
            (a >> 40u64) as u8,
            (a >> 32u64) as u8,
            (a >> 24u64) as u8,
            (a >> 16u64) as u8,
            (a >> 8u64) as u8,
            a as u8,
        ) == a,
{
    assert(a < 0x100 ==> (a as u8) as u64 == a) by (bit_vector);
    assert(a < 0x1_0000 ==> ((((a >> 8u64) as u8) as u64) << 8u64) | ((a as u8) as u64) == a)
        by (bit_vector);
    assert(a < 0x1_0000_0000 ==> ((((a >> 24u64) as u8) as u64) << 24u64) | ((((
    a >> 16u64) as u8) as u64) << 16u64) | ((((a >> 8u64) as u8) as u64) << 8u64) | ((
    a as u8) as u64) == a) by (bit_vector);
    assert(((((a >> 56u64) as u8) as u64) << 56u64) | ((((a >> 48u64) as u8) as u64) << 48u64)
        | ((((a >> 40u64) as u8) as u64) << 40u64) | ((((a >> 32u64) as u8) as u64) << 32u64)
        | ((((a >> 24u64) as u8) as u64) << 24u64) | ((((a >> 16u64) as u8) as u64) << 16u64)
        | ((((a >> 8u64) as u8) as u64) << 8u64) | ((a as u8) as u64) == a) by (bit_vector);
}

/// A head written by [`head`] reads back as the same major type and argument.
pub proof fn lemma_head_parse(m: u8, a: u64, rest: Seq<u8>)
    requires
        m < 8,
    ensures
        1 <= head(m, a).len() <= 9,
        parse_head(head(m, a) + rest) == Some((m, a, head(m, a).len() as int)),
{
    reveal(parse_head);
    let h = head(m, a);
    let b = h + rest;
    lemma_be_roundtrip(a);
    if a < 24 {
        lemma_initial(m, a);
        assert(b[0] == h[0]);
    } else if a < 0x100 {
        lemma_initial(m, 24);
        assert(b[0] == h[0] && b[1] == h[1]);
    } else if a < 0x1_0000 {
        lemma_initial(m, 25);
        assert(b[0] == h[0] && b[1] == h[1] && b[2] == h[2]);
    } else if a < 0x1_0000_0000 {
        lemma_initial(m, 26);
        assert(b[0] == h[0] && b[1] == h[1] && b[2] == h[2] && b[3] == h[3] && b[4] == h[4]);
    } else {
        lemma_initial(m, 27);
        assert(b[0] == h[0] && b[1] == h[1] && b[2] == h[2] && b[3] == h[3] && b[4] == h[4]);
        assert(b[5] == h[5] && b[6] == h[6] && b[7] == h[7] && b[8] == h[8]);
    }
}

proof fn lemma_parse_enc_scalar(v: ValueSpec, rest: Seq<u8>, depth: nat)
    requires
        well_formed(v),
        v is Uint || v is Bytes || v is Text,
    ensures
        enc(v).len() >= 1,
        parse(enc(v) + rest, depth) == Some((v, enc(v).len() as int)),
{
    match v {
        ValueSpec::Uint(n) => {
            lemma_head_parse(MAJOR_UINT, n, rest);
        },
        ValueSpec::Bytes(body) => {
            let h = head(MAJOR_BYTES, body.len() as u64);
            lemma_head_parse(MAJOR_BYTES, body.len() as u64, body + rest);
            assert(enc(v) + rest =~= h + (body + rest));
            assert((h + (body + rest)).skip(h.len() as int) =~= body + rest);
            assert((body + rest).take(body.len() as int) =~= body);
        },
        ValueSpec::Text(t) => {
            let body = encode_utf8(t);
            let h = head(MAJOR_TEXT, body.len() as u64);
            lemma_head_parse(MAJOR_TEXT, body.len() as u64, body + rest);
            assert(enc(v) + rest =~= h + (body + rest));
            assert((h + (body + rest)).skip(h.len() as int) =~= body + rest);
            assert((body + rest).take(body.len() as int) =~= body);
        },
        _ => {},
    }
}

proof fn lemma_parse_enc_array(items: Seq<ValueSpec>, rest: Seq<u8>, depth: nat)
    requires
        items.len() <= u64::MAX,
        depth < MAX_DEPTH,
        parse_items(enc_items(items) + rest, items.len(), depth + 1) == Some(
            (items, enc_items(items).len() as int),
        ),
    ensures
        parse(enc(ValueSpec::Array(items)) + rest, depth) == Some(
            (ValueSpec::Array(items), enc(ValueSpec::Array(items)).len() as int),
        ),
{
    let body = enc_items(items);
    let h = head(MAJOR_ARRAY, items.len() as u64);
    lemma_head_parse(MAJOR_ARRAY, items.len() as u64, body + rest);
    assert(enc(ValueSpec::Array(items)) + rest =~= h + (body + rest));
    assert((h + (body + rest)).skip(h.len() as int) =~= body + rest);
}

proof fn lemma_parse_enc_dict(entries: Seq<(u64, ValueSpec)>, rest: Seq<u8>, depth: nat)
    requires
        entries.len() <= u64::MAX,
        depth < MAX_DEPTH,
        parse_entries(enc_entries(entries) + rest, entries.len(), depth + 1) == Some(
            (entries, enc_entries(entries).len() as int),
        ),
    ensures
        parse(enc(ValueSpec::Dict(entries)) + rest, depth) == Some(
            (ValueSpec::Dict(entries), enc(ValueSpec::Dict(entries)).len() as int),
        ),
{
    let body = enc_entries(entries);
    let h = head(MAJOR_MAP, entries.len() as u64);
    lemma_head_parse(MAJOR_MAP, entries.len() as u64, body + rest);
    assert(enc(ValueSpec::Dict(entries)) + rest =~= h + (body + rest));
    assert((h + (body + rest)).skip(h.len() as int) =~= body + rest);
}

/// Every well-formed data item nested no deeper than the decoder allows
/// reads back from its encoding, whatever bytes follow it.
pub proof fn lemma_parse_enc(v: ValueSpec, rest: Seq<u8>, depth: nat)
    requires
        well_formed(v),
        depth + nesting(v) <= MAX_DEPTH,
    ensures
        enc(v).len() >= 1,
        parse(enc(v) + rest, depth) == Some((v, enc(v).len() as int)),
    decreases v, 1nat,
{
    match v {
        ValueSpec::Array(items) => {
            lemma_parse_enc_items(items, rest, depth + 1);
            lemma_parse_enc_array(items, rest, depth);
        },
        ValueSpec::Dict(entries) => {
            lemma_parse_enc_entries(entries, rest, depth + 1);
            lemma_parse_enc_dict(entries, rest, depth);
        },
        _ => {
            lemma_parse_enc_scalar(v, rest, depth);
        },
    }
}

proof fn lemma_parse_enc_items(s: Seq<ValueSpec>, rest: Seq<u8>, depth: nat)
    requires
        well_formed_items(s),
        depth + nesting_items(s) <= MAX_DEPTH,
    ensures
        parse_items(enc_items(s) + rest, s.len(), depth) == Some((s, enc_items(s).len() as int)),
    decreases s, 0nat,
{
    if s.len() == 0 {
        assert(enc_items(s) + rest =~= rest);
        assert(s =~= seq![]);
    } else {
        let tail = s.drop_first();
        let first = enc(s[0]);
        lemma_parse_enc(s[0], enc_items(tail) + rest, depth);
        lemma_parse_enc_items(tail, rest, depth);
        assert(enc_items(s) + rest =~= first + (enc_items(tail) + rest));
        assert((first + (enc_items(tail) + rest)).skip(first.len() as int) =~= enc_items(tail)
            + rest);
        assert(seq![s[0]] + tail =~= s);
    }
}

#[verifier::rlimit(60)]
proof fn lemma_parse_enc_entries(s: Seq<(u64, ValueSpec)>, rest: Seq<u8>, depth: nat)
    requires
        well_formed_entries(s),
        depth + nesting_entries(s) <= MAX_DEPTH,
    ensures
        parse_entries(enc_entries(s) + rest, s.len(), depth) == Some(
            (s, enc_entries(s).len() as int),
        ),
    decreases s, 0nat,
{
    if s.len() == 0 {
        assert(enc_entries(s) + rest =~= rest);
        assert(s =~= seq![]);
    } else {
        let tail = s.drop_first();
        let kh = head(MAJOR_UINT, s[0].0);
        let val = enc(s[0].1);
        let after = enc_entries(tail) + rest;
        assert(decreases_to!(s => s[0]));
        assert(decreases_to!(s[0] => s[0].1));
        lemma_parse_enc(s[0].1, after, depth);
        lemma_head_parse(MAJOR_UINT, s[0].0, val + after);
        lemma_parse_enc_entries(tail, rest, depth);
        let all = kh + (val + after);
        assert(enc_entries(s) + rest =~= all);
        assert(all.skip(kh.len() as int) =~= val + after);
        assert(all.skip((kh.len() + val.len()) as int) =~= after);
        assert(seq![(s[0].0, s[0].1)] + tail =~= s);
    }
}

/// Decoding an encoding gives back the data item, for every item whose
/// arrays and maps nest at most [`MAX_DEPTH`] deep ([`encode`] shows every
/// encoded value well formed).
pub proof fn law_decode_encode(v: ValueSpec)
    requires
        well_formed(v),
        nesting(v) <= MAX_DEPTH,
    ensures
        parse(enc(v), 0) == Some((v, enc(v).len() as int)),
{
    lemma_parse_enc(v, seq![], 0);
    assert(enc(v) + Seq::<u8>::empty() =~= enc(v));
}

/// Decodes one data item that fills `b` exactly.
pub fn decode(b: &[u8]) -> (r: Option<Value>)
    ensures
        r matches Some(v) ==> parse(b@, 0) == Some((v@, b@.len() as int)),
        r is None ==> !(parse(b@, 0) matches Some((_, n)) && n == b@.len()),
{
    assert(b@.skip(0) =~= b@);
    match decode_at(b, 0, 0) {
        Some((v, end)) => {
            if end == b.len() {
                Some(v)
            } else {
                None
            }
        },
        None => None,
    }
}

} // verus!

verus! {

/// The value stored under key `k`: the first entry with that key.
pub open spec fn lookup(m: Seq<(u64, ValueSpec)>, k: u64) -> Option<ValueSpec>
    decreases m.len(),
{
    if m.len() == 0 {
        None
    } else if m[0].0 == k {
        Some(m[0].1)
    } else {
        lookup(m.drop_first(), k)
    }
}

/// The first entry of `m` with key `k`, if any.
pub fn map_get(m: &[(u64, Value)], k: u64) -> (r: Option<&Value>)
    ensures
        match r {
            Some(v) => lookup(view_entries(m@), k) == Some(v@),
            None => lookup(view_entries(m@), k) is None,
        },
{
    let mut i: usize = 0;
    proof {
        lemma_view_entries_len(m@);
        assert(view_entries(m@).skip(0) =~= view_entries(m@));
    }
    while i < m.len()
        invariant
            i <= m@.len(),
            view_entries(m@).len() == m@.len(),
            forall|j: int|
                0 <= j < m@.len() ==> #[trigger] view_entries(m@)[j] == (m@[j].0, view_value(
                    m@[j].1,
                )),
            lookup(view_entries(m@), k) == lookup(view_entries(m@).skip(i as int), k),
        decreases m@.len() - i,
    {
        let ghost rest = view_entries(m@).skip(i as int);
        assert(rest[0] == view_entries(m@)[i as int]);
        if m[i].0 == k {
            return Some(&m[i].1);
        }
        assert(rest.drop_first() =~= view_entries(m@).skip(i + 1));
        i = i + 1;
    }
    None
}

} // verus!

verus! {

pub proof fn lemma_view_entries_push(s: Seq<(u64, Value)>, e: (u64, Value))
    ensures
        view_entries(s.push(e)) == view_entries(s).push((e.0, e.1@)),
{
    assert(s.push(e).drop_last() =~= s);
}

pub proof fn lemma_view_items_push(s: Seq<Value>, v: Value)
    ensures
        view_items(s.push(v)) == view_items(s).push(v@),
{
    assert(s.push(v).drop_last() =~= s);
}

/// Arrays and maps whose members nest at most `k` deep nest at most
/// `k + 1` deep.
pub proof fn lemma_nesting_entries_bound(s: Seq<(u64, ValueSpec)>, k: nat)
    requires
        forall|i: int| 0 <= i < s.len() ==> nesting(#[trigger] s[i].1) <= k,
    ensures
        nesting_entries(s) <= k,
    decreases s.len(),
{
    if s.len() > 0 {
        assert(nesting(s[0].1) <= k);
        assert forall|i: int| 0 <= i < s.drop_first().len() implies nesting(
            #[trigger] s.drop_first()[i].1,
        ) <= k by {
            assert(s.drop_first()[i] == s[i + 1]);
        }
        lemma_nesting_entries_bound(s.drop_first(), k);
    }
}

pub proof fn lemma_nesting_items_bound(s: Seq<ValueSpec>, k: nat)
    requires
        forall|i: int| 0 <= i < s.len() ==> nesting(#[trigger] s[i]) <= k,
    ensures
        nesting_items(s) <= k,
    decreases s.len(),
{
    if s.len() > 0 {
        assert(nesting(s[0]) <= k);
        assert forall|i: int| 0 <= i < s.drop_first().len() implies nesting(
            #[trigger] s.drop_first()[i],
        ) <= k by {
            assert(s.drop_first()[i] == s[i + 1]);
        }
        lemma_nesting_items_bound(s.drop_first(), k);
    }
}

pub proof fn lemma_well_formed_entries_all(s: Seq<(u64, ValueSpec)>)
    requires
        forall|i: int| 0 <= i < s.len() ==> well_formed(#[trigger] s[i].1),
    ensures
        well_formed_entries(s),
    decreases s.len(),
{
    if s.len() > 0 {
        assert(well_formed(s[0].1));
        assert forall|i: int| 0 <= i < s.drop_first().len() implies well_formed(
            #[trigger] s.drop_first()[i].1,
        ) by {
            assert(s.drop_first()[i] == s[i + 1]);
        }
        lemma_well_formed_entries_all(s.drop_first());
    }
}

} // verus!
