//! Relay-only ICE: candidates that reveal a host or server-reflexive address
//! are refused before they leave the device.

use vstd::prelude::*;
use crate::error::CoreError;

verus! {

/// Unicode `White_Space`, the set that `str::split_whitespace` splits on.
pub open spec fn is_ws(c: char) -> bool {
    let u = c as u32;
    (0x09 <= u <= 0x0d) || u == 0x20 || u == 0x85 || u == 0xa0 || u == 0x1680 || (0x2000 <= u
        <= 0x200a) || u == 0x2028 || u == 0x2029 || u == 0x202f || u == 0x205f || u == 0x3000
}

/// Words completed so far, and the word being read, after reading `s`.
pub open spec fn scan(s: Seq<char>) -> (Seq<Seq<char>>, Seq<char>)
    decreases s.len(),
{
    if s.len() == 0 {
        (seq![], seq![])
    } else {
        let (done, cur) = scan(s.drop_last());
        let c = s.last();
        if is_ws(c) {
            if cur.len() > 0 {
                (done.push(cur), seq![])
            } else {
                (done, seq![])
            }
        } else {
            (done, cur.push(c))
        }
    }
}

/// The maximal runs of non-whitespace characters of `s`, in order.
pub open spec fn words(s: Seq<char>) -> Seq<Seq<char>> {
    let (done, cur) = scan(s);
    if cur.len() > 0 {
        done.push(cur)
    } else {
        done
    }
}

/// Some word `typ` is directly followed by the word `t`.
pub open spec fn has_typ(ws: Seq<Seq<char>>, t: Seq<char>) -> bool {
    exists|i: int| 0 <= i && i + 1 < ws.len() && ws[i] == seq!['t', 'y', 'p'] && #[trigger] ws[i
        + 1] == t
}

pub open spec fn lower_char(c: char) -> char {
    if 'A' <= c <= 'Z' {
        ((c as u32) + 32) as char
    } else {
        c
    }
}

/// ASCII lower case; other characters unchanged.
pub open spec fn ascii_lower(s: Seq<char>) -> Seq<char> {
    Seq::new(s.len(), |i: int| lower_char(s[i]))
}

/// A candidate of type `host` or `srflx`, in any ASCII case.
pub open spec fn direct_candidate(c: Seq<char>) -> bool {
    has_typ(words(ascii_lower(c)), seq!['h', 'o', 's', 't']) || has_typ(
        words(ascii_lower(c)),
        seq!['s', 'r', 'f', 'l', 'x'],
    )
}

proof fn lemma_has_typ_push(ws: Seq<Seq<char>>, w: Seq<char>, t: Seq<char>)
    ensures
        has_typ(ws.push(w), t) == (has_typ(ws, t) || (ws.len() > 0 && ws.last() == seq![
            't',
            'y',
            'p',
        ] && w == t)),
{
    let ws2 = ws.push(w);
    if has_typ(ws2, t) {
        let i = choose|i: int|
            0 <= i && i + 1 < ws2.len() && ws2[i] == seq!['t', 'y', 'p'] && #[trigger] ws2[i + 1]
                == t;
        if i + 1 < ws.len() {
            assert(ws[i] == ws2[i] && ws[i + 1] == ws2[i + 1]);
        }
    }
    if has_typ(ws, t) {
        let i = choose|i: int|
            0 <= i && i + 1 < ws.len() && ws[i] == seq!['t', 'y', 'p'] && #[trigger] ws[i + 1]
                == t;
        assert(ws2[i] == ws[i] && ws2[i + 1] == ws[i + 1]);
    }
    if ws.len() > 0 && ws.last() == seq!['t', 'y', 'p'] && w == t {
        let i = ws.len() - 1;
        assert(ws2[i] == ws[i] && ws2[i + 1] == w);
    }
}

pub fn is_ws_char(c: char) -> (b: bool)
    ensures
        b == is_ws(c),
{
    let u = c as u32;
    (0x09 <= u && u <= 0x0d) || u == 0x20 || u == 0x85 || u == 0xa0 || u == 0x1680 || (0x2000
        <= u && u <= 0x200a) || u == 0x2028 || u == 0x2029 || u == 0x202f || u == 0x205f || u
        == 0x3000
}

pub fn chars_eq(a: &Vec<char>, b: &Vec<char>) -> (r: bool)
    ensures
        r == (a@ == b@),
{
    if a.len() != b.len() {
        return false;
    }
    let mut i: usize = 0;
    while i < a.len()
        invariant
            a@.len() == b@.len(),
            i <= a@.len(),
            forall|j: int| 0 <= j < i ==> a@[j] == b@[j],
        decreases a@.len() - i,
    {
        if a[i] != b[i] {
            return false;
        }
        i = i + 1;
    }
    assert(a@ =~= b@);
    true
}

/// The characters of `s`.
pub fn chars_of(s: &str) -> (r: Vec<char>)
    ensures
        r@ == s@,
{
    let mut out: Vec<char> = Vec::new();
    let n = s.unicode_len();
    let mut i: usize = 0;
    while i < n
        invariant
            n == s@.len(),
            i <= n,
            out@ == s@.take(i as int),
        decreases n - i,
    {
        out.push(s.get_char(i));
        i = i + 1;
        assert(out@ =~= s@.take(i as int));
    }
    assert(s@.take(i as int) =~= s@);
    out
}

fn lower_chars(v: &Vec<char>) -> (r: Vec<char>)
    ensures
        r@ == ascii_lower(v@),
{
    let mut out: Vec<char> = Vec::new();
    let mut i: usize = 0;
    while i < v.len()
        invariant
            i <= v@.len(),
            out@ == ascii_lower(v@.take(i as int)),
        decreases v@.len() - i,
    {
        let c = v[i];
        let l = if 'A' <= c && c <= 'Z' {
            let u = (c as u32) + 32;
            assert(0x61 <= u <= 0x7a);
            (u as u8) as char
        } else {
            c
        };
        assert(l == lower_char(c)) by {
            if 'A' <= c && c <= 'Z' {
                assert(((((c as u32) + 32) as u8) as char) == (((c as u32) + 32) as char));
            }
        }
        out.push(l);
        i = i + 1;
        assert(out@ =~= ascii_lower(v@.take(i as int)));
    }
    assert(v@.take(i as int) =~= v@);
    out
}

fn typ_word() -> (r: Vec<char>)
    ensures
        r@ == seq!['t', 'y', 'p'],
{
    let r = vec!['t', 'y', 'p'];
    assert(r@ =~= seq!['t', 'y', 'p']);
    r
}

/// Some word `typ` of `candidate` is directly followed by the word `typ`.
fn ice_typ(candidate: &Vec<char>, typ: &Vec<char>) -> (r: bool)
    ensures
        r == has_typ(words(candidate@), typ@),
{
    let typ_w = typ_word();
    let mut have_prev = false;
    let mut prev: Vec<char> = Vec::new();
    let mut cur: Vec<char> = Vec::new();
    let mut found = false;
    let mut i: usize = 0;
    while i < candidate.len()
        invariant
            i <= candidate@.len(),
            typ_w@ == seq!['t', 'y', 'p'],
            scan(candidate@.take(i as int)) == (scan(candidate@.take(i as int)).0, cur@),
            have_prev == (scan(candidate@.take(i as int)).0.len() > 0),
            have_prev ==> prev@ == scan(candidate@.take(i as int)).0.last(),
            found == has_typ(scan(candidate@.take(i as int)).0, typ@),
        decreases candidate@.len() - i,
    {
        let ghost before = candidate@.take(i as int);
        let c = candidate[i];
        assert(candidate@.take(i + 1).drop_last() =~= before);
        if is_ws_char(c) {
            if cur.len() > 0 {
                proof {
                    lemma_has_typ_push(scan(before).0, cur@, typ@);
                }
                let hit = have_prev && chars_eq(&prev, &typ_w) && chars_eq(&cur, typ);
                found = found || hit;
                prev = cur;
                cur = Vec::new();
                have_prev = true;
            }
        } else {
            cur.push(c);
        }
        i = i + 1;
        assert(scan(candidate@.take(i as int)).1 =~= cur@);
    }
    assert(candidate@.take(i as int) =~= candidate@);
    if cur.len() > 0 {
        proof {
            lemma_has_typ_push(scan(candidate@).0, cur@, typ@);
        }
        let hit = have_prev && chars_eq(&prev, &typ_w) && chars_eq(&cur, typ);
        found || hit
    } else {
        found
    }
}

/// Refuses any candidate of type `host` or `srflx` (in any ASCII case):
/// calls are relayed only.
pub fn reject_direct_ice(ice: &[String]) -> (r: Result<(), CoreError>)
    ensures
        r is Ok <==> forall|i: int| 0 <= i < ice@.len() ==> !direct_candidate(#[trigger] ice@[i]@),
        r matches Err(e) ==> e == CoreError::DirectIceForbidden,
{
    let host = vec!['h', 'o', 's', 't'];
    let srflx = vec!['s', 'r', 'f', 'l', 'x'];
    assert(host@ =~= seq!['h', 'o', 's', 't']);
    assert(srflx@ =~= seq!['s', 'r', 'f', 'l', 'x']);
    let mut i: usize = 0;
    while i < ice.len()
        invariant
            i <= ice@.len(),
            host@ == seq!['h', 'o', 's', 't'],
            srflx@ == seq!['s', 'r', 'f', 'l', 'x'],
            forall|j: int| 0 <= j < i ==> !direct_candidate(#[trigger] ice@[j]@),
        decreases ice@.len() - i,
    {
        let lower = lower_chars(&chars_of(ice[i].as_str()));
        if ice_typ(&lower, &host) || ice_typ(&lower, &srflx) {
            return Err(CoreError::DirectIceForbidden);
        }
        i = i + 1;
    }
    Ok(())
}

} // verus!
