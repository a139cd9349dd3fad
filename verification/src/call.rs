//! Call signaling checks: the DTLS fingerprint an SDP announces, and its
//! comparison with the fingerprint the signaling message claims. The media
//! engine itself lives outside the library.

use vstd::prelude::*;
use crate::error::CoreError;
use crate::ice::{is_ws, chars_of, chars_eq, direct_candidate, reject_direct_ice};
use crate::ids::CALL_ID_LEN;

verus! {

/// TURN relay settings for a call.
#[derive(Clone, Debug)]
pub struct TurnConfig {
    pub url: String,
    pub username: String,
    pub credential: String,
    pub bind: String,
}

/// What one side of a call signals to the other.
#[derive(Clone, Debug)]
pub struct LocalSignal {
    pub call_id: [u8; CALL_ID_LEN],
    pub sdp: String,
    pub dtls_fp: String,
    pub ice: Vec<String>,
}

/// The pieces of `s` between occurrences of `sep`, in order (one more
/// piece than there are separators).
pub open spec fn pieces(s: Seq<char>, sep: char) -> Seq<Seq<char>>
    decreases s.len(),
{
    if s.len() == 0 {
        seq![seq![]]
    } else {
        let rest = pieces(s.drop_first(), sep);
        if s[0] == sep {
            seq![seq![]] + rest
        } else {
            rest.update(0, seq![s[0]] + rest[0])
        }
    }
}

/// Number of whitespace characters at the start of `s`.
pub open spec fn lead(s: Seq<char>) -> nat
    decreases s.len(),
{
    if s.len() > 0 && is_ws(s[0]) {
        1 + lead(s.drop_first())
    } else {
        0
    }
}

/// Number of whitespace characters at the end of `s`.
pub open spec fn trail(s: Seq<char>) -> nat
    decreases s.len(),
{
    if s.len() > 0 && is_ws(s.last()) {
        1 + trail(s.drop_last())
    } else {
        0
    }
}

/// `s` without leading and trailing whitespace.
pub open spec fn trim(s: Seq<char>) -> Seq<char> {
    let r = s.skip(lead(s) as int);
    r.take(r.len() - trail(r))
}

pub open spec fn fp_prefix() -> Seq<char> {
    seq!['a', '=', 'f', 'i', 'n', 'g', 'e', 'r', 'p', 'r', 'i', 'n', 't', ':']
}

/// The fingerprint a line announces: a trimmed line `a=fingerprint:` followed
/// by a non-empty trimmed value.
pub open spec fn line_fp(line: Seq<char>) -> Option<Seq<char>> {
    let t = trim(line);
    if t.len() >= 14 && t.take(14) == fp_prefix() && trim(t.skip(14)).len() > 0 {
        Some(trim(t.skip(14)))
    } else {
        None
    }
}

pub open spec fn first_fp(lines: Seq<Seq<char>>) -> Option<Seq<char>>
    decreases lines.len(),
{
    if lines.len() == 0 {
        None
    } else {
        match line_fp(lines[0]) {
            Some(f) => Some(f),
            None => first_fp(lines.drop_first()),
        }
    }
}

/// The fingerprint of the first line of `sdp` that announces one.
pub open spec fn sdp_fingerprint(sdp: Seq<char>) -> Option<Seq<char>> {
    first_fp(pieces(sdp, '\n'))
}

pub open spec fn is_hex(c: char) -> bool {
    ('0' <= c <= '9') || ('a' <= c <= 'f') || ('A' <= c <= 'F')
}

pub open spec fn hex_lower(c: char) -> char {
    if 'A' <= c <= 'F' {
        ((c as u32) + 32) as char
    } else {
        c
    }
}

/// The hexadecimal digits of `s`, in lower case; all else dropped.
pub open spec fn normalize(s: Seq<char>) -> Seq<char>
    decreases s.len(),
{
    if s.len() == 0 {
        seq![]
    } else if is_hex(s.last()) {
        normalize(s.drop_last()).push(hex_lower(s.last()))
    } else {
        normalize(s.drop_last())
    }
}

pub proof fn lemma_piece(t: Seq<char>, j: int, sep: char)
    requires
        0 <= j <= t.len(),
        forall|k: int| 0 <= k < j ==> t[k] != sep,
        j < t.len() ==> t[j] == sep,
    ensures
        pieces(t, sep) == if j == t.len() {
            seq![t]
        } else {
            seq![t.take(j)] + pieces(t.skip(j + 1), sep)
        },
    decreases j,
{
    if j == 0 {
        if t.len() == 0 {
            assert(t =~= seq![]);
            assert(pieces(t, sep) =~= seq![t]);
        } else {
            assert(t.take(0) =~= seq![]);
            assert(t.drop_first() =~= t.skip(1));
            assert(pieces(t, sep) =~= seq![t.take(j)] + pieces(t.skip(j + 1), sep));
        }
    } else {
        let u = t.drop_first();
        assert forall|k: int| 0 <= k < j - 1 implies u[k] != sep by {
            assert(u[k] == t[k + 1]);
        }
        lemma_piece(u, j - 1, sep);
        let rest = pieces(u, sep);
        if j == t.len() {
            assert(seq![t[0]] + u =~= t);
            assert(rest.update(0, seq![t[0]] + rest[0]) =~= seq![t]);
        } else {
            assert(seq![t[0]] + u.take(j - 1) =~= t.take(j));
            assert(u.skip(j) =~= t.skip(j + 1));
            assert(rest.update(0, seq![t[0]] + rest[0]) =~= seq![t.take(j)] + pieces(
                t.skip(j + 1),
                sep,
            ));
        }
    }
}

pub fn lead_end(c: &Vec<char>, i: usize, j: usize) -> (a: usize)
    requires
        i <= j <= c@.len(),
    ensures
        a == i + lead(c@.subrange(i as int, j as int)),
        a <= j,
{
    let mut a = i;
    while a < j && is_ws_at(c, a)
        invariant
            i <= a <= j <= c@.len(),
            lead(c@.subrange(i as int, j as int)) == (a - i) + lead(c@.subrange(a as int, j as int)),
        decreases j - a,
    {
        assert(c@.subrange(a as int, j as int).drop_first() =~= c@.subrange(a + 1, j as int));
        a = a + 1;
    }
    a
}

pub fn trail_start(c: &Vec<char>, a: usize, j: usize) -> (b: usize)
    requires
        a <= j <= c@.len(),
    ensures
        b == j - trail(c@.subrange(a as int, j as int)),
        a <= b,
{
    let mut b = j;
    while b > a && is_ws_at(c, b - 1)
        invariant
            a <= b <= j <= c@.len(),
            trail(c@.subrange(a as int, j as int)) == (j - b) + trail(c@.subrange(a as int, b as int)),
        decreases b - a,
    {
        assert(c@.subrange(a as int, b as int).drop_last() =~= c@.subrange(a as int, b - 1));
        b = b - 1;
    }
    b
}

pub fn is_ws_at(c: &Vec<char>, k: usize) -> (r: bool)
    requires
        k < c@.len(),
    ensures
        r == is_ws(c@[k as int]),
{
    let u = c[k] as u32;
    (0x09 <= u && u <= 0x0d) || u == 0x20 || u == 0x85 || u == 0xa0 || u == 0x1680 || (0x2000
        <= u && u <= 0x200a) || u == 0x2028 || u == 0x2029 || u == 0x202f || u == 0x205f || u
        == 0x3000
}

/// Bounds of `trim(c[i..j])` within `c`.
pub fn trim_bounds(c: &Vec<char>, i: usize, j: usize) -> (r: (usize, usize))
    requires
        i <= j <= c@.len(),
    ensures
        i <= r.0 <= r.1 <= j,
        c@.subrange(r.0 as int, r.1 as int) == trim(c@.subrange(i as int, j as int)),
{
    let a = lead_end(c, i, j);
    let b = trail_start(c, a, j);
    proof {
        let s = c@.subrange(i as int, j as int);
        assert(s.skip(a - i) =~= c@.subrange(a as int, j as int));
        let r = s.skip(a - i);
        assert(r.take(r.len() - trail(r)) =~= c@.subrange(a as int, b as int));
    }
    (a, b)
}

fn has_fp_prefix(c: &Vec<char>, a: usize, b: usize) -> (r: bool)
    requires
        a <= b <= c@.len(),
    ensures
        r == (b - a >= 14 && c@.subrange(a as int, b as int).take(14) == fp_prefix()),
{
    if b - a < 14 {
        return false;
    }
    let p = vec!['a', '=', 'f', 'i', 'n', 'g', 'e', 'r', 'p', 'r', 'i', 'n', 't', ':'];
    assert(p@ =~= fp_prefix());
    let mut k: usize = 0;
    while k < 14
        invariant
            a + 14 <= b <= c@.len(),
            p@ == fp_prefix(),
            k <= 14,
            forall|m: int| 0 <= m < k ==> c@[a + m] == p@[m],
        decreases 14 - k,
    {
        if c[a + k] != p[k] {
            assert(c@.subrange(a as int, b as int).take(14)[k as int] != fp_prefix()[k as int]);
            return false;
        }
        k = k + 1;
    }
    assert(c@.subrange(a as int, b as int).take(14) =~= fp_prefix());
    true
}

/// The DTLS fingerprint the SDP announces: the value of its first
/// `a=fingerprint:` line, trimmed.
pub fn fingerprint_from_sdp(sdp: &str) -> (r: Result<String, CoreError>)
    ensures
        match sdp_fingerprint(sdp@) {
            Some(f) => r matches Ok(s) && s@ == f,
            None => r matches Err(e) && e is Call,
        },
{
    let c = chars_of(sdp);
    let n = c.len();
    let mut i: usize = 0;
    proof {
        assert(c@.skip(0) =~= c@);
    }
    loop
        invariant
            i <= n,
            n == c@.len(),
            c@ == sdp@,
            sdp_fingerprint(sdp@) == first_fp(pieces(c@.skip(i as int), '\n')),
        decreases n - i,
    {
        let mut j = i;
        while j < n && c[j] != '\n'
            invariant
                i <= j <= n,
                n == c@.len(),
                forall|k: int| i <= k < j ==> c@[k] != '\n',
            decreases n - j,
        {
            j = j + 1;
        }
        let ghost t = c@.skip(i as int);
        let ghost line = c@.subrange(i as int, j as int);
        proof {
            assert forall|k: int| 0 <= k < j - i implies t[k] != '\n' by {
                assert(t[k] == c@[i + k]);
            }
            lemma_piece(t, j - i, '\n');
            assert(t.take(j - i) =~= line);
            if j == n {
                assert(t =~= line);
            }
        }
        let (a, b) = trim_bounds(&c, i, j);
        if has_fp_prefix(&c, a, b) {
            let (fa, fb) = trim_bounds(&c, a + 14, b);
            proof {
                let tl = c@.subrange(a as int, b as int);
                assert(tl.skip(14) =~= c@.subrange(a + 14, b as int));
            }
            if fa < fb {
                let f = sdp.substring_char(fa, fb);
                return Ok(String::from_str(f));
            }
        }
        assert(line_fp(line) is None);
        if j == n {
            assert(seq![line].drop_first() =~= Seq::<Seq<char>>::empty());
            assert(pieces(t, '\n') =~= seq![line]);
            assert(first_fp(seq![line]) == first_fp(Seq::<Seq<char>>::empty()));
            return Err(CoreError::Call(String::from_str("SDP has no a=fingerprint")));
        }
        proof {
            assert(c@.skip(j + 1) =~= t.skip(j - i + 1));
            let rest = pieces(c@.skip(j + 1), '\n');
            assert((seq![line] + rest)[0] == line);
            assert((seq![line] + rest).drop_first() =~= rest);
        }
        i = j + 1;
    }
}

fn normalize_fp(s: &str) -> (r: Vec<char>)
    ensures
        r@ == normalize(s@),
{
    let c = chars_of(s);
    let mut out: Vec<char> = Vec::new();
    let mut i: usize = 0;
    while i < c.len()
        invariant
            c@ == s@,
            i <= c@.len(),
            out@ == normalize(c@.take(i as int)),
        decreases c@.len() - i,
    {
        let ch = c[i];
        assert(c@.take(i + 1).drop_last() =~= c@.take(i as int));
        if ('0' <= ch && ch <= '9') || ('a' <= ch && ch <= 'f') {
            out.push(ch);
        } else if 'A' <= ch && ch <= 'F' {
            let u = (ch as u32) + 32;
            out.push((u as u8) as char);
            assert(((u as u8) as char) == (u as char));
        }
        i = i + 1;
    }
    assert(c@.take(i as int) =~= c@);
    out
}

/// Two fingerprints are the same when their hexadecimal digits agree,
/// whatever the case and separators.
pub fn fingerprints_match(a: &str, b: &str) -> (r: bool)
    ensures
        r == (normalize(a@) == normalize(b@)),
{
    let x = normalize_fp(a);
    let y = normalize_fp(b);
    chars_eq(&x, &y)
}

/// The SDP must announce the fingerprint that the signaling message claims.
pub fn verify_fingerprint(sdp: &str, claimed: &str) -> (r: Result<(), CoreError>)
    ensures
        match sdp_fingerprint(sdp@) {
            None => r matches Err(e) && e is Call,
            Some(f) => if normalize(f) == normalize(claimed@) {
                r is Ok
            } else {
                r matches Err(e) && e == CoreError::DtlsFingerprintMismatch
            },
        },
{
    let got = fingerprint_from_sdp(sdp)?;
    if !fingerprints_match(got.as_str(), claimed) {
        return Err(CoreError::DtlsFingerprintMismatch);
    }
    Ok(())
}

/// What the wait for the first relay candidate does next.
#[derive(Debug, PartialEq, Eq)]
pub enum RelayWait {
    /// A relay candidate is there: go on.
    Ready,
    /// Give up with this error.
    Fail(CoreError),
    /// Nothing yet; look again shortly.
    Wait,
}

/// One look while waiting for the first relay candidate: a direct candidate
/// seen is refused; any gathered candidate ends the wait; gathering that
/// ended with none, or the deadline passing, gives up.
pub fn relay_wait_step(forbidden: bool, gathered: usize, gathering_done: bool, timed_out: bool) -> (r:
    RelayWait)
    ensures
        forbidden ==> r == RelayWait::Fail(CoreError::DirectIceForbidden),
        !forbidden && gathered > 0 ==> r == RelayWait::Ready,
        !forbidden && gathered == 0 && gathering_done ==> (r matches RelayWait::Fail(CoreError::Call(m))
            && m@ == "no relay ICE candidates"@),
        !forbidden && gathered == 0 && !gathering_done && timed_out ==> (r matches RelayWait::Fail(
            CoreError::Call(m),
        ) && m@ == "ICE gathering timed out"@),
        !forbidden && gathered == 0 && !gathering_done && !timed_out ==> r == RelayWait::Wait,
{
    if forbidden {
        RelayWait::Fail(CoreError::DirectIceForbidden)
    } else if gathered > 0 {
        RelayWait::Ready
    } else if gathering_done {
        RelayWait::Fail(CoreError::Call(String::from_str("no relay ICE candidates")))
    } else if timed_out {
        RelayWait::Fail(CoreError::Call(String::from_str("ICE gathering timed out")))
    } else {
        RelayWait::Wait
    }
}

/// The checks once the first relay candidate has been gathered: no direct
/// candidate was ever seen and none is among those gathered, there is at
/// least one candidate, and the local description exists and announces a
/// fingerprint. Gives that fingerprint.
pub fn check_gathered(forbidden: bool, ice: &Vec<String>, local_sdp: Option<&str>) -> (r: Result<
    String,
    CoreError,
>)
    ensures
        forbidden ==> r == Err::<String, CoreError>(CoreError::DirectIceForbidden),
        !forbidden && !(forall|i: int| 0 <= i < ice@.len() ==> !direct_candidate(#[trigger] ice@[i]@))
            ==> r == Err::<String, CoreError>(CoreError::DirectIceForbidden),
        !forbidden && (forall|i: int| 0 <= i < ice@.len() ==> !direct_candidate(#[trigger] ice@[i]@))
            ==> if ice@.len() == 0 {
            r matches Err(e) && e matches CoreError::Call(m) && m@ == "no relay ICE candidates"@
        } else {
            match local_sdp {
                None => r matches Err(e) && e matches CoreError::Call(m) && m@
                    == "missing local SDP"@,
                Some(sdp) => match sdp_fingerprint(sdp@) {
                    Some(f) => r matches Ok(s) && s@ == f,
                    None => r matches Err(e) && e is Call,
                },
            }
        },
{
    if forbidden {
        return Err(CoreError::DirectIceForbidden);
    }
    reject_direct_ice(ice.as_slice())?;
    if ice.len() == 0 {
        return Err(CoreError::Call(String::from_str("no relay ICE candidates")));
    }
    match local_sdp {
        None => Err(CoreError::Call(String::from_str("missing local SDP"))),
        Some(sdp) => fingerprint_from_sdp(sdp),
    }
}

/// What the ICE trickle loop does next.
#[derive(Clone, Debug, PartialEq, Eq)]
pub enum TrickleStep {
    /// The call is over, gathering ended with nothing left, or the
    /// candidates could not be read.
    Stop,
    /// Nothing new yet; look again shortly.
    Wait,
    /// Send these candidates to the peer.
    Send(Vec<String>),
}

/// One turn of the ICE trickle: a closed call stops; new candidates are
/// sent; none while gathering goes on means wait; none after it ends, or
/// an error reading them, stops.
pub fn trickle_step(closed: bool, unsent: Option<Vec<String>>, gathering_done: bool) -> (r: TrickleStep)
    ensures
        closed ==> r == TrickleStep::Stop,
        !closed ==> match unsent {
            None => r == TrickleStep::Stop,
            Some(v) => if v@.len() > 0 {
                r == TrickleStep::Send(v)
            } else if gathering_done {
                r == TrickleStep::Stop
            } else {
                r == TrickleStep::Wait
            },
        },
{
    if closed {
        return TrickleStep::Stop;
    }
    match unsent {
        None => TrickleStep::Stop,
        Some(v) => if v.len() > 0 {
            TrickleStep::Send(v)
        } else if gathering_done {
            TrickleStep::Stop
        } else {
            TrickleStep::Wait
        },
    }
}

/// New local ICE candidates to send: those after the first `sent`. Once
/// a direct candidate was seen the call refuses to go on. Every candidate
/// taken counts as sent, and all of them must be relay-only.
pub fn take_unsent_ice(all: &Vec<String>, sent: usize, forbidden: bool) -> (r: (
    Result<Vec<String>, CoreError>,
    usize,
))
    ensures
        forbidden ==> r == (Err::<Vec<String>, CoreError>(CoreError::DirectIceForbidden), sent),
        !forbidden && all@.len() <= sent ==> (r.1 == sent && (r.0 matches Ok(v) && v@.len() == 0)),
        !forbidden && all@.len() > sent ==> {
            let extra = all@.skip(sent as int);
            &&& r.1 == all@.len()
            &&& (forall|i: int| 0 <= i < extra.len() ==> !direct_candidate(#[trigger] extra[i]@))
                ==> (r.0 matches Ok(v) && v@ == extra)
            &&& !(forall|i: int| 0 <= i < extra.len() ==> !direct_candidate(#[trigger] extra[i]@))
                ==> r.0 == Err::<Vec<String>, CoreError>(CoreError::DirectIceForbidden)
        },
{
    if forbidden {
        return (Err(CoreError::DirectIceForbidden), sent);
    }
    let n = all.len();
    if n <= sent {
        return (Ok(Vec::new()), sent);
    }
    let mut extra: Vec<String> = Vec::new();
    let mut i = sent;
    while i < n
        invariant
            sent <= i <= n,
            n == all@.len(),
            extra@ == all@.subrange(sent as int, i as int),
        decreases n - i,
    {
        extra.push(all[i].clone());
        i = i + 1;
        assert(extra@ =~= all@.subrange(sent as int, i as int));
    }
    assert(extra@ =~= all@.skip(sent as int));
    match reject_direct_ice(extra.as_slice()) {
        Ok(()) => (Ok(extra), n),
        Err(e) => (Err(e), n),
    }
}


/// How a fingerprint is compared, one character at a time: a decimal digit
/// or a small letter `a`..`f` is kept as it is, a capital `A`..`F` is kept
/// in small case, and any other character (colons, spaces, the algorithm's
/// other letters) is dropped.
pub proof fn law_normalize_char(s: Seq<char>, c: char)
    ensures
        normalize(seq![]) == Seq::<char>::empty(),
        ('0' <= c <= '9' || 'a' <= c <= 'f') ==> normalize(s.push(c)) == normalize(s).push(c),
        'A' <= c <= 'F' ==> normalize(s.push(c)) == normalize(s).push(((c as u32) + 32) as char),
        !('0' <= c <= '9' || 'a' <= c <= 'f' || 'A' <= c <= 'F') ==> normalize(s.push(c))
            == normalize(s),
{
    assert(s.push(c).drop_last() =~= s);
}

/// Every character that comparison keeps is a small hexadecimal digit.
pub proof fn law_normalize_hex_only(s: Seq<char>)
    ensures
        forall|i: int|
            0 <= i < normalize(s).len() ==> ('0' <= #[trigger] normalize(s)[i] <= '9' || 'a'
                <= normalize(s)[i] <= 'f'),
    decreases s.len(),
{
    if s.len() > 0 {
        law_normalize_hex_only(s.drop_last());
        let c = s.last();
        let p = s.drop_last();
        if 'A' <= c <= 'F' {
            assert(65 <= (c as u32) <= 70);
            assert('a' <= hex_lower(c) <= 'f');
        }
        assert forall|i: int| 0 <= i < normalize(s).len() implies ('0' <= #[trigger] normalize(s)[i]
            <= '9' || 'a' <= normalize(s)[i] <= 'f') by {
            if i < normalize(p).len() {
                assert(normalize(s)[i] == normalize(p)[i]);
            }
        }
    }
}

/// A fingerprint written in small hexadecimal digits only is compared as
/// it is: two such fingerprints match exactly when they are equal, so any
/// digit that differs makes them differ.
pub proof fn law_fingerprint_digits(a: Seq<char>, b: Seq<char>)
    requires
        forall|i: int| 0 <= i < a.len() ==> ('0' <= #[trigger] a[i] <= '9' || 'a' <= a[i] <= 'f'),
        forall|i: int| 0 <= i < b.len() ==> ('0' <= #[trigger] b[i] <= '9' || 'a' <= b[i] <= 'f'),
    ensures
        normalize(a) == a,
        normalize(b) == b,
        (normalize(a) == normalize(b)) <==> a == b,
{
    lemma_normalize_plain(a);
    lemma_normalize_plain(b);
}

proof fn lemma_normalize_plain(a: Seq<char>)
    requires
        forall|i: int| 0 <= i < a.len() ==> ('0' <= #[trigger] a[i] <= '9' || 'a' <= a[i] <= 'f'),
    ensures
        normalize(a) == a,
    decreases a.len(),
{
    if a.len() > 0 {
        let p = a.drop_last();
        assert forall|i: int| 0 <= i < p.len() implies ('0' <= #[trigger] p[i] <= '9' || 'a' <= p[i]
            <= 'f') by {
            assert(p[i] == a[i]);
        }
        lemma_normalize_plain(p);
        assert(a[a.len() - 1] == a.last());
        assert(p.push(a.last()) =~= a);
    }
}

} // verus!
