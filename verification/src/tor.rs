//! Client to home through a SOCKS5 proxy: which origins stay direct, how an
//! origin splits into host, port and scheme, the SOCKS5 exchange, and the
//! HTTP/1.1 response read back through the tunnel. The sockets themselves
//! belong to the caller.

use vstd::prelude::*;
use crate::error::CoreError;
use crate::ice::{chars_of, chars_eq, words, scan, is_ws, is_ws_char};
use crate::cbor::{string_from_utf8, copy_range};
use crate::home::{HttpRequest, HttpResponse};
use crate::hex::{decimal, decimal_of};
use vstd::utf8::{valid_utf8, decode_utf8};



verus! {

/// Index of the first `://` at or after `i`.
pub open spec fn find_scheme(s: Seq<char>, i: int) -> Option<int>
    decreases s.len() - i,
{
    if i < 0 || i + 3 > s.len() {
        None
    } else if s[i] == ':' && s[i + 1] == '/' && s[i + 2] == '/' {
        Some(i)
    } else {
        find_scheme(s, i + 1)
    }
}

/// What follows the first `://`, or all of `s` when there is none.
pub open spec fn after_scheme(s: Seq<char>) -> Seq<char> {
    match find_scheme(s, 0) {
        Some(i) => s.skip(i + 3),
        None => s,
    }
}

/// `s` without its trailing slashes.
pub open spec fn trim_slashes(s: Seq<char>) -> Seq<char>
    decreases s.len(),
{
    if s.len() > 0 && s.last() == '/' {
        trim_slashes(s.drop_last())
    } else {
        s
    }
}

/// The origin after its scheme, without trailing slashes.
pub open spec fn origin_rest(base: Seq<char>) -> Seq<char> {
    trim_slashes(after_scheme(base))
}

/// The longest prefix of `s` without `/` and `:`.
pub open spec fn plain_host(s: Seq<char>) -> Seq<char>
    decreases s.len(),
{
    if s.len() == 0 || s[0] == '/' || s[0] == ':' {
        seq![]
    } else {
        seq![s[0]] + plain_host(s.drop_first())
    }
}

/// The prefix of `s` up to and including its first `]`, or all of `s`
/// when it holds none.
pub open spec fn bracket_host(s: Seq<char>) -> Seq<char>
    decreases s.len(),
{
    if s.len() == 0 {
        seq![]
    } else if s[0] == ']' {
        seq![']']
    } else {
        seq![s[0]] + bracket_host(s.drop_first())
    }
}

/// The host at the front of `s`: a bracketed IPv6 literal is taken whole,
/// any other host ends at the first `/` or `:`.
pub open spec fn host_part(s: Seq<char>) -> Seq<char> {
    if s.len() > 0 && s[0] == '[' {
        bracket_host(s)
    } else {
        plain_host(s)
    }
}

/// The host an origin names.
pub open spec fn origin_host_of(base: Seq<char>) -> Seq<char> {
    host_part(origin_rest(base))
}

/// Homes that Tor exits cannot reach, so they stay direct.
pub open spec fn loopback_host(h: Seq<char>) -> bool {
    h == seq!['l', 'o', 'c', 'a', 'l', 'h', 'o', 's', 't'] || h == seq![
        '1',
        '2',
        '7',
        '.',
        '0',
        '.',
        '0',
        '.',
        '1',
    ] || h == seq![':', ':', '1'] || h == seq!['[', ':', ':', '1', ']']
}

fn scheme_end(c: &Vec<char>) -> (r: usize)
    ensures
        r as int == match find_scheme(c@, 0) {
            Some(i) => i + 3,
            None => 0,
        },
        r <= c@.len(),
{
    let n = c.len();
    let mut i: usize = 0;
    while i < n && n - i >= 3
        invariant
            n == c@.len(),
            i <= n,
            find_scheme(c@, 0) == find_scheme(c@, i as int),
        decreases n - i,
    {
        if c[i] == ':' && c[i + 1] == '/' && c[i + 2] == '/' {
            return i + 3;
        }
        i = i + 1;
    }
    0
}

/// Bounds of `origin_rest(base)` within the characters of `base`.
fn rest_bounds(c: &Vec<char>) -> (r: (usize, usize))
    ensures
        r.0 <= r.1 <= c@.len(),
        c@.subrange(r.0 as int, r.1 as int) == origin_rest(c@),
{
    let start = scheme_end(c);
    let mut end = c.len();
    proof {
        assert(after_scheme(c@) =~= c@.subrange(start as int, end as int));
    }
    while end > start && c[end - 1] == '/'
        invariant
            start <= end <= c@.len(),
            origin_rest(c@) == trim_slashes(c@.subrange(start as int, end as int)),
        decreases end - start,
    {
        assert(c@.subrange(start as int, end as int).drop_last() =~= c@.subrange(
            start as int,
            end - 1,
        ));
        end = end - 1;
    }
    (start, end)
}

/// End of `plain_host(c[a..b])`.
fn plain_end(c: &Vec<char>, a: usize, b: usize) -> (h: usize)
    requires
        a <= b <= c@.len(),
    ensures
        a <= h <= b,
        c@.subrange(a as int, h as int) == plain_host(c@.subrange(a as int, b as int)),
{
    let mut h = a;
    while h < b && c[h] != '/' && c[h] != ':'
        invariant
            a <= h <= b <= c@.len(),
            plain_host(c@.subrange(a as int, b as int)) == c@.subrange(a as int, h as int)
                + plain_host(c@.subrange(h as int, b as int)),
        decreases b - h,
    {
        assert(c@.subrange(h as int, b as int).drop_first() =~= c@.subrange(h + 1, b as int));
        assert(c@.subrange(a as int, h as int) + seq![c@[h as int]] =~= c@.subrange(
            a as int,
            h + 1,
        ));
        h = h + 1;
    }
    assert(c@.subrange(a as int, h as int) + seq![] =~= c@.subrange(a as int, h as int));
    h
}

/// End of `bracket_host(c[a..b])`.
fn bracket_end(c: &Vec<char>, a: usize, b: usize) -> (h: usize)
    requires
        a <= b <= c@.len(),
    ensures
        a <= h <= b,
        c@.subrange(a as int, h as int) == bracket_host(c@.subrange(a as int, b as int)),
{
    let mut h = a;
    while h < b && c[h] != ']'
        invariant
            a <= h <= b <= c@.len(),
            bracket_host(c@.subrange(a as int, b as int)) == c@.subrange(a as int, h as int)
                + bracket_host(c@.subrange(h as int, b as int)),
        decreases b - h,
    {
        assert(c@.subrange(h as int, b as int).drop_first() =~= c@.subrange(h + 1, b as int));
        assert(c@.subrange(a as int, h as int) + seq![c@[h as int]] =~= c@.subrange(
            a as int,
            h + 1,
        ));
        h = h + 1;
    }
    if h < b {
        assert(c@.subrange(a as int, h as int) + seq![']'] =~= c@.subrange(a as int, h + 1));
        h + 1
    } else {
        assert(c@.subrange(a as int, h as int) + seq![] =~= c@.subrange(a as int, h as int));
        h
    }
}

/// End of `host_part(c[a..b])`.
fn host_end(c: &Vec<char>, a: usize, b: usize) -> (h: usize)
    requires
        a <= b <= c@.len(),
    ensures
        a <= h <= b,
        c@.subrange(a as int, h as int) == host_part(c@.subrange(a as int, b as int)),
{
    if a < b && c[a] == '[' {
        bracket_end(c, a, b)
    } else {
        plain_end(c, a, b)
    }
}

/// The host of an origin: after the scheme, a bracketed IPv6 literal whole,
/// any other host up to the first `/` or `:`.
pub fn origin_host(base: &str) -> (r: &str)
    ensures
        r@ == origin_host_of(base@),
{
    let c = chars_of(base);
    let (a, b) = rest_bounds(&c);
    let h = host_end(&c, a, b);
    base.substring_char(a, h)
}

/// Whether an origin names this machine.
pub fn is_loopback_origin(base: &str) -> (r: bool)
    ensures
        r == loopback_host(origin_host_of(base@)),
{
    let host = chars_of(origin_host(base));
    let localhost = vec!['l', 'o', 'c', 'a', 'l', 'h', 'o', 's', 't'];
    let v4 = vec!['1', '2', '7', '.', '0', '.', '0', '.', '1'];
    let v6 = vec![':', ':', '1'];
    let v6b = vec!['[', ':', ':', '1', ']'];
    assert(localhost@ =~= seq!['l', 'o', 'c', 'a', 'l', 'h', 'o', 's', 't']);
    assert(v4@ =~= seq!['1', '2', '7', '.', '0', '.', '0', '.', '1']);
    assert(v6@ =~= seq![':', ':', '1']);
    assert(v6b@ =~= seq!['[', ':', ':', '1', ']']);
    chars_eq(&host, &localhost) || chars_eq(&host, &v4) || chars_eq(&host, &v6) || chars_eq(
        &host,
        &v6b,
    )
}

// ---------------------------------------------------------------------------
// Ports and origins
// ---------------------------------------------------------------------------

pub open spec fn all_digits(s: Seq<char>) -> bool {
    forall|i: int| 0 <= i < s.len() ==> '0' <= #[trigger] s[i] <= '9'
}

/// The number the decimal digits of `s` spell.
pub open spec fn digits_value(s: Seq<char>) -> nat
    decreases s.len(),
{
    if s.len() == 0 {
        0
    } else {
        digits_value(s.drop_last()) * 10 + ((s.last() as u32) - ('0' as u32)) as nat
    }
}

/// `u16::from_str`: an optional `+`, then one or more decimal digits whose
/// value fits 16 bits.
pub open spec fn parse_u16(s: Seq<char>) -> Option<u16> {
    let d = if s.len() > 0 && s[0] == '+' {
        s.skip(1)
    } else {
        s
    };
    if d.len() > 0 && all_digits(d) && digits_value(d) <= 0xffff {
        Some(digits_value(d) as u16)
    } else {
        None
    }
}

/// Parses `c[a..b]` as a `u16`.
fn parse_port(c: &Vec<char>, a: usize, b: usize) -> (r: Option<u16>)
    requires
        a <= b <= c@.len(),
    ensures
        r == parse_u16(c@.subrange(a as int, b as int)),
{
    let ghost s = c@.subrange(a as int, b as int);
    let mut i = a;
    if i < b && c[i] == '+' {
        i = i + 1;
    }
    let start = i;
    proof {
        if a < b && c@[a as int] == '+' {
            assert(s.skip(1) =~= c@.subrange(start as int, b as int));
        } else {
            assert(s =~= c@.subrange(start as int, b as int));
        }
    }
    if start == b {
        return None;
    }
    let ghost d = c@.subrange(start as int, b as int);
    assert(parse_u16(s) == if all_digits(d) && digits_value(d) <= 0xffff {
        Some(digits_value(d) as u16)
    } else {
        None
    });
    let mut v: u64 = 0;
    while i < b
        invariant
            start <= i <= b <= c@.len(),
            d == c@.subrange(start as int, b as int),
            parse_u16(c@.subrange(a as int, b as int)) == if all_digits(d) && digits_value(d)
                <= 0xffff {
                Some(digits_value(d) as u16)
            } else {
                None
            },
            all_digits(c@.subrange(start as int, i as int)),
            v == if digits_value(c@.subrange(start as int, i as int)) >= 70000 {
                70000
            } else {
                digits_value(c@.subrange(start as int, i as int))
            },
        decreases b - i,
    {
        let ch = c[i];
        if !('0' <= ch && ch <= '9') {
            assert(!all_digits(c@.subrange(start as int, b as int))) by {
                assert(c@.subrange(start as int, b as int)[i - start] == ch);
            }
            return None;
        }
        let d = (ch as u32 - '0' as u32) as u64;
        let ghost prev = c@.subrange(start as int, i as int);
        assert(c@.subrange(start as int, i + 1).drop_last() =~= prev);
        v = v * 10 + d;
        if v > 70000 {
            v = 70000;
        }
        i = i + 1;
    }
    assert(c@.subrange(start as int, i as int) =~= d);
    if v <= 0xffff {
        Some(v as u16)
    } else {
        None
    }
}

/// How an origin splits: host, port, and whether it is `https`.
pub enum OriginSplit {
    Split(Seq<char>, u16, bool),
    /// `[` without a closing `]`.
    BadOrigin,
    /// A port that is not a 16-bit decimal number.
    BadPort,
}

#[verifier::opaque]
pub open spec fn first_index(s: Seq<char>, ch: char) -> Option<int> {
    if exists|i: int| 0 <= i < s.len() && s[i] == ch {
        Some(choose|i: int| 0 <= i < s.len() && s[i] == ch && forall|j: int| 0 <= j < i ==> s[j] != ch)
    } else {
        None
    }
}

pub open spec fn https_prefix() -> Seq<char> {
    seq!['h', 't', 't', 'p', 's', ':', '/', '/']
}

/// `[host]` with an optional `:port` after it; an unreadable port falls
/// back to the default.
pub open spec fn split_bracketed(host_port: Seq<char>, https: bool) -> OriginSplit {
    let default_port: u16 = if https {
        443
    } else {
        80
    };
    let inner = host_port.skip(1);
    match first_index(inner, ']') {
        None => OriginSplit::BadOrigin,
        Some(k) => {
            let after = inner.skip(k + 1);
            let port = if after.len() > 0 && after[0] == ':' {
                match parse_u16(after.skip(1)) {
                    Some(p) => p,
                    None => default_port,
                }
            } else {
                default_port
            };
            OriginSplit::Split(host_port.take(k + 2), port, https)
        },
    }
}

/// `host` with an optional `:port`, which must then be readable.
pub open spec fn split_plain(host_port: Seq<char>, https: bool) -> OriginSplit {
    let default_port: u16 = if https {
        443
    } else {
        80
    };
    match first_index(host_port, ':') {
        Some(i) => match parse_u16(host_port.skip(i + 1)) {
            Some(p) => OriginSplit::Split(host_port.take(i), p, https),
            None => OriginSplit::BadPort,
        },
        None => OriginSplit::Split(host_port, default_port, https),
    }
}

/// The split of an origin, as [`parse_origin`] makes it.
pub open spec fn origin_split(base: Seq<char>) -> OriginSplit {
    let https = base.len() >= 8 && base.take(8) == https_prefix();
    let rest = origin_rest(base);
    let host_port = match first_index(rest, '/') {
        Some(i) => rest.take(i),
        None => rest,
    };
    if host_port.len() > 0 && host_port[0] == '[' {
        split_bracketed(host_port, https)
    } else {
        split_plain(host_port, https)
    }
}

/// First index of `ch` in `c[a..b]`, or `b`.
pub fn find_char(c: &Vec<char>, a: usize, b: usize, ch: char) -> (r: usize)
    requires
        a <= b <= c@.len(),
    ensures
        a <= r <= b,
        forall|j: int| a <= j < r ==> c@[j] != ch,
        r < b ==> c@[r as int] == ch,
        r == b <==> first_index(c@.subrange(a as int, b as int), ch) is None,
        r < b ==> first_index(c@.subrange(a as int, b as int), ch) == Some(r - a),
{
    let mut i = a;
    while i < b && c[i] != ch
        invariant
            a <= i <= b <= c@.len(),
            forall|j: int| a <= j < i ==> c@[j] != ch,
        decreases b - i,
    {
        i = i + 1;
    }
    proof {
        reveal(first_index);
        let s = c@.subrange(a as int, b as int);
        if i < b {
            assert(s[i - a] == ch);
            let k = choose|k: int| 0 <= k < s.len() && s[k] == ch && forall|j: int| 0 <= j < k ==> s[j] != ch;
            assert(s[k] == c@[a + k]);
            if k < i - a {
                assert(c@[a + k] != ch);
            }
            if k > i - a {
                assert(s[i - a] != ch);
            }
        } else {
            assert forall|j: int| 0 <= j < s.len() implies s[j] != ch by {
                assert(s[j] == c@[a + j]);
            }
        }
    }
    i
}

fn has_https_prefix(c: &Vec<char>) -> (r: bool)
    ensures
        r == (c@.len() >= 8 && c@.take(8) == https_prefix()),
{
    if c.len() < 8 {
        return false;
    }
    let p = vec!['h', 't', 't', 'p', 's', ':', '/', '/'];
    assert(p@ =~= https_prefix());
    let mut k: usize = 0;
    while k < 8
        invariant
            8 <= c@.len(),
            p@ == https_prefix(),
            k <= 8,
            forall|m: int| 0 <= m < k ==> c@[m] == p@[m],
        decreases 8 - k,
    {
        if c[k] != p[k] {
            assert(c@.take(8)[k as int] != https_prefix()[k as int]);
            return false;
        }
        k = k + 1;
    }
    assert(c@.take(8) =~= https_prefix());
    true
}

fn split_bracketed_at(base: &str, c: &Vec<char>, a: usize, e: usize, https: bool) -> (r: Result<
    (String, u16, bool),
    CoreError,
>)
    requires
        c@ == base@,
        a < e <= c@.len(),
        c@[a as int] == '[',
    ensures
        match split_bracketed(c@.subrange(a as int, e as int), https) {
            OriginSplit::Split(h, p, s) => r matches Ok((host, port, t)) && host@ == h && port == p
                && t == s,
            _ => r matches Err(err) && err is Transport,
        },
{
    let ghost host_port = c@.subrange(a as int, e as int);
    let default_port: u16 = if https {
        443
    } else {
        80
    };
    let close = find_char(c, a + 1, e, ']');
    proof {
        assert(host_port.skip(1) =~= c@.subrange(a + 1, e as int));
    }
    if close == e {
        return Err(CoreError::Transport(String::from_str("bad home origin")));
    }
    let after = close + 1;
    let port = if after < e && c[after] == ':' {
        match parse_port(c, after + 1, e) {
            Some(p) => p,
            None => default_port,
        }
    } else {
        default_port
    };
    proof {
        let inner = host_port.skip(1);
        let k = close - (a + 1);
        assert(inner.skip(k + 1) =~= c@.subrange(after as int, e as int));
        if after < e {
            assert(c@.subrange(after as int, e as int).skip(1) =~= c@.subrange(
                after + 1,
                e as int,
            ));
        }
        assert(host_port.take(k + 2) =~= c@.subrange(a as int, close + 1));
    }
    let host = String::from_str(base.substring_char(a, close + 1));
    Ok((host, port, https))
}

fn split_plain_at(base: &str, c: &Vec<char>, a: usize, e: usize, https: bool) -> (r: Result<
    (String, u16, bool),
    CoreError,
>)
    requires
        c@ == base@,
        a <= e <= c@.len(),
    ensures
        match split_plain(c@.subrange(a as int, e as int), https) {
            OriginSplit::Split(h, p, s) => r matches Ok((host, port, t)) && host@ == h && port == p
                && t == s,
            _ => r matches Err(err) && err is Transport,
        },
{
    let ghost host_port = c@.subrange(a as int, e as int);
    let default_port: u16 = if https {
        443
    } else {
        80
    };
    let colon = find_char(c, a, e, ':');
    if colon < e {
        proof {
            assert(host_port.skip(colon - a + 1) =~= c@.subrange(colon + 1, e as int));
            assert(host_port.take(colon - a) =~= c@.subrange(a as int, colon as int));
        }
        match parse_port(c, colon + 1, e) {
            Some(p) => Ok((String::from_str(base.substring_char(a, colon)), p, https)),
            None => Err(CoreError::Transport(String::from_str("bad home port"))),
        }
    } else {
        Ok((String::from_str(base.substring_char(a, e)), default_port, https))
    }
}

/// Splits a home origin into host, port and scheme. The port defaults to
/// 443 for `https://` and 80 otherwise; a bracketed IPv6 host keeps its
/// brackets and falls back to the default on an unreadable port.
pub fn parse_origin(base: &str) -> (r: Result<(String, u16, bool), CoreError>)
    ensures
        match origin_split(base@) {
            OriginSplit::Split(h, p, https) => r matches Ok((host, port, s)) && host@ == h && port
                == p && s == https,
            _ => r matches Err(e) && e is Transport,
        },
{
    let c = chars_of(base);
    let https = has_https_prefix(&c);
    let (a, b) = rest_bounds(&c);
    let e = find_char(&c, a, b, '/');
    proof {
        let rest = c@.subrange(a as int, b as int);
        if e < b {
            assert(rest.take(e - a) =~= c@.subrange(a as int, e as int));
        } else {
            assert(rest =~= c@.subrange(a as int, e as int));
        }
    }
    if a < e && c[a] == '[' {
        split_bracketed_at(base, &c, a, e, https)
    } else {
        split_plain_at(base, &c, a, e, https)
    }
}

// ---------------------------------------------------------------------------
// HTTP/1.1 responses read back through the tunnel
// ---------------------------------------------------------------------------

/// `raw[i..i + 4]` is `\r\n\r\n`.
pub open spec fn blank_line_at(raw: Seq<u8>, i: int) -> bool {
    0 <= i && i + 4 <= raw.len() && raw[i] == 13 && raw[i + 1] == 10 && raw[i + 2] == 13 && raw[i
        + 3] == 10
}

/// Where the header ends: the first `\r\n\r\n`.
#[verifier::opaque]
pub open spec fn header_end(raw: Seq<u8>) -> Option<int> {
    if exists|i: int| blank_line_at(raw, i) {
        Some(
            choose|i: int|
                blank_line_at(raw, i) && forall|j: int| 0 <= j < i ==> !blank_line_at(raw, j),
        )
    } else {
        None
    }
}

/// The first of `str::lines`: up to the first `\n`, less a `\r` just before
/// it; all of `s` when there is no `\n`; nothing when `s` is empty.
pub open spec fn first_line(s: Seq<char>) -> Option<Seq<char>> {
    if s.len() == 0 {
        None
    } else {
        match first_index(s, '\n') {
            Some(k) => Some(
                if k > 0 && s[k - 1] == '\r' {
                    s.take(k - 1)
                } else {
                    s.take(k)
                },
            ),
            None => Some(s),
        }
    }
}

/// The status code of a response head: the second word of its first line,
/// read as a `u16`.
#[verifier::opaque]
pub open spec fn head_status(head: Seq<char>) -> Option<u16> {
    match first_line(head) {
        Some(line) => if words(line).len() >= 2 {
            parse_u16(words(line)[1])
        } else {
            None
        },
        None => None,
    }
}

proof fn lemma_scan_step(s: Seq<char>, i: int)
    requires
        0 <= i < s.len(),
    ensures
        scan(s.take(i + 1)) == ({
            let (done, cur) = scan(s.take(i));
            if is_ws(s[i]) {
                if cur.len() > 0 {
                    (done.push(cur), Seq::<char>::empty())
                } else {
                    (done, Seq::<char>::empty())
                }
            } else {
                (done, cur.push(s[i]))
            }
        }),
{
    assert(s.take(i + 1).drop_last() =~= s.take(i));
    assert(s.take(i + 1).last() == s[i]);
}

/// Bounds of the second word of `c[a..b]`, if it has two.
fn second_word(c: &Vec<char>, a: usize, b: usize) -> (r: Option<(usize, usize)>)
    requires
        a <= b <= c@.len(),
    ensures
        match r {
            Some((x, y)) => a <= x <= y <= b && words(c@.subrange(a as int, b as int)).len() >= 2
                && words(c@.subrange(a as int, b as int))[1] == c@.subrange(x as int, y as int),
            None => words(c@.subrange(a as int, b as int)).len() < 2,
        },
{
    let ghost line = c@.subrange(a as int, b as int);
    let mut i = a;
    let mut nd: usize = 0;
    let mut cs = a;
    let mut w1s = a;
    let mut w1e = a;
    while i < b
        invariant
            a <= cs <= i <= b <= c@.len(),
            a <= w1s <= w1e <= b,
            line == c@.subrange(a as int, b as int),
            nd <= 2,
            nd == (if scan(line.take(i - a)).0.len() >= 2 {
                2
            } else {
                scan(line.take(i - a)).0.len()
            }),
            scan(line.take(i - a)).1 == c@.subrange(cs as int, i as int),
            scan(line.take(i - a)).0.len() >= 2 ==> scan(line.take(i - a)).0[1] == c@.subrange(
                w1s as int,
                w1e as int,
            ),
        decreases b - i,
    {
        let ch = c[i];
        proof {
            lemma_scan_step(line, i - a);
            assert(line[i - a] == ch);
        }
        let ghost done = scan(line.take(i - a)).0;
        let ghost cur = scan(line.take(i - a)).1;
        if is_ws_char(ch) {
            if cs < i {
                assert(cur.len() > 0);
                if nd == 1 {
                    w1s = cs;
                    w1e = i;
                }
                if nd < 2 {
                    nd = nd + 1;
                }
            } else {
                assert(cur.len() == 0);
            }
            cs = i + 1;
            i = i + 1;
            assert(c@.subrange(cs as int, i as int) =~= Seq::<char>::empty());
        } else {
            i = i + 1;
            assert(c@.subrange(cs as int, i as int) =~= cur.push(ch));
        }
    }
    proof {
        assert(line.take(i - a) =~= line);
    }
    let ghost done = scan(line).0;
    let ghost cur = scan(line).1;
    if nd == 2 {
        Some((w1s, w1e))
    } else if nd == 1 && cs < b {
        assert(words(line) == done.push(cur));
        Some((cs, b))
    } else {
        None
    }
}

fn first_blank_line(raw: &[u8]) -> (r: Option<usize>)
    ensures
        r matches Some(i) ==> header_end(raw@) == Some(i as int) && blank_line_at(raw@, i as int),
        r is None ==> header_end(raw@) is None,
{
    let n = raw.len();
    let mut i: usize = 0;
    while n >= 4 && i <= n - 4
        invariant
            n == raw@.len(),
            forall|j: int| 0 <= j < i ==> !blank_line_at(raw@, j),
        decreases n - i,
    {
        if raw[i] == 13 && raw[i + 1] == 10 && raw[i + 2] == 13 && raw[i + 3] == 10 {
            proof {
                reveal(header_end);
                assert(blank_line_at(raw@, i as int));
                let k = choose|k: int|
                    blank_line_at(raw@, k) && forall|j: int| 0 <= j < k ==> !blank_line_at(raw@, j);
                assert(blank_line_at(raw@, k) && forall|j: int|
                    0 <= j < k ==> !blank_line_at(raw@, j));
                if k < i {
                    assert(!blank_line_at(raw@, k));
                }
                if k > i {
                    assert(!blank_line_at(raw@, i as int));
                }
                assert(k == i);
            }
            return Some(i);
        }
        i = i + 1;
    }
    proof {
        reveal(header_end);
        assert forall|j: int| !blank_line_at(raw@, j) by {
            if 0 <= j < i {
            } else if j >= i {
                assert(j + 4 > n);
            }
        }
    }
    None
}

fn status_of_head(text: &String) -> (r: Option<u16>)
    ensures
        r == head_status(text@),
{
    reveal(head_status);
    let c = chars_of(text.as_str());
    let len = c.len();
    if len == 0 {
        return None;
    }
    let k = find_char(&c, 0, len, '\n');
    let e = if k < len && k > 0 && c[k - 1] == '\r' {
        k - 1
    } else {
        k
    };
    proof {
        assert(c@.subrange(0, len as int) =~= c@);
        assert(c@.subrange(0, e as int) =~= c@.take(e as int));
        if k == len {
            assert(c@.take(e as int) =~= c@);
        }
    }
    let (x, y) = match second_word(&c, 0, e) {
        Some(w) => w,
        None => {
            return None;
        },
    };
    parse_port(&c, x, y)
}

fn head_text(raw: &[u8], sep: usize) -> (r: Option<String>)
    requires
        sep <= raw@.len(),
    ensures
        r is Some <==> valid_utf8(raw@.take(sep as int)),
        r matches Some(t) ==> t@ == decode_utf8(raw@.take(sep as int)),
{
    let head = copy_range(raw, 0, sep);
    assert(head@ =~= raw@.take(sep as int));
    string_from_utf8(head)
}

/// Reads an HTTP/1.1 response: the status from the first header line and
/// the body after the blank line. A missing blank line, a head that is not
/// UTF-8 and an unreadable status are transport errors.
pub fn parse_http_response(raw: &[u8]) -> (r: Result<HttpResponse, CoreError>)
    ensures
        match header_end(raw@) {
            None => r matches Err(CoreError::Transport(m)) && m@ == "Tor HTTP response has no header"@,
            Some(sep) => if !valid_utf8(raw@.take(sep)) {
                r matches Err(CoreError::Transport(m)) && m@ == "Tor HTTP header is not UTF-8"@
            } else {
                match head_status(decode_utf8(raw@.take(sep))) {
                    None => r matches Err(CoreError::Transport(m)) && m@ == "Tor HTTP status"@,
                    Some(st) => r matches Ok(res) && res.status == st && res.body@ == raw@.skip(
                        sep + 4,
                    ),
                }
            },
        },
{
    let found = first_blank_line(raw);
    let sep = match found {
        Some(s) => s,
        None => {
            return Err(CoreError::Transport(String::from_str("Tor HTTP response has no header")));
        },
    };
    let text = match head_text(raw, sep) {
        Some(t) => t,
        None => {
            return Err(CoreError::Transport(String::from_str("Tor HTTP header is not UTF-8")));
        },
    };
    let status = match status_of_head(&text) {
        Some(st) => st,
        None => {
            return Err(CoreError::Transport(String::from_str("Tor HTTP status")));
        },
    };
    assert(blank_line_at(raw@, sep as int));
    let end = raw.len();
    assert(sep + 4 <= end);
    let start = sep + 4;
    let body = copy_range(raw, start, end);
    assert(body@ =~= raw@.skip(sep + 4));
    Ok(HttpResponse { status, body })
}

// ---------------------------------------------------------------------------
// SOCKS5 (RFC 1928), CONNECT by domain name, no authentication
// ---------------------------------------------------------------------------

/// Version 5, one method offered: no authentication.
pub fn socks_greeting() -> (r: Vec<u8>)
    ensures
        r@ == seq![5u8, 1u8, 0u8],
{
    vec![5u8, 1u8, 0u8]
}

/// The proxy must answer the greeting with version 5 and "no
/// authentication".
pub fn check_socks_greeting(reply: [u8; 2]) -> (r: Result<(), CoreError>)
    ensures
        r is Ok <==> (reply@[0] == 5 && reply@[1] == 0),
        r is Err ==> (r matches Err(CoreError::Transport(m)) && m@ == "Tor SOCKS greeting refused"@),
{
    if reply[0] == 5 && reply[1] == 0 {
        Ok(())
    } else {
        Err(CoreError::Transport(String::from_str("Tor SOCKS greeting refused")))
    }
}

/// The CONNECT request bytes: `05 01 00 03`, the host's length and bytes,
/// then the port big-endian.
pub open spec fn connect_request(host: Seq<u8>, port: u16) -> Seq<u8> {
    seq![5u8, 1u8, 0u8, 3u8, host.len() as u8] + host + seq![(port / 256) as u8, (port % 256) as u8]
}

/// The CONNECT request for `host:port`; a host longer than 255 bytes does not
/// fit the length byte and is refused.
pub fn socks_connect_request(host: &[u8], port: u16) -> (r: Result<Vec<u8>, CoreError>)
    ensures
        host@.len() > 255 ==> (r matches Err(CoreError::Transport(m)) && m@
            == "home host too long for SOCKS"@),
        host@.len() <= 255 ==> (r matches Ok(v) && v@ == connect_request(host@, port)),
{
    if host.len() > 255 {
        return Err(CoreError::Transport(String::from_str("home host too long for SOCKS")));
    }
    let mut req: Vec<u8> = vec![5u8, 1u8, 0u8, 3u8, host.len() as u8];
    let mut i: usize = 0;
    while i < host.len()
        invariant
            i <= host@.len() <= 255,
            req@ == seq![5u8, 1u8, 0u8, 3u8, host@.len() as u8] + host@.take(i as int),
        decreases host@.len() - i,
    {
        req.push(host[i]);
        i = i + 1;
        assert(req@ =~= seq![5u8, 1u8, 0u8, 3u8, host@.len() as u8] + host@.take(i as int));
    }
    req.push((port / 256) as u8);
    req.push((port % 256) as u8);
    assert(host@.take(i as int) =~= host@);
    assert(req@ =~= connect_request(host@, port));
    Ok(req)
}

/// What follows the first four bytes of the CONNECT reply: a bound address
/// of known size, or a domain whose length byte comes next.
#[derive(Clone, Copy, Debug, PartialEq, Eq, Structural)]
pub enum SocksTail {
    /// Skip this many bytes (address and port).
    Skip(usize),
    /// Read one length byte `n`, then skip `n + 2` bytes.
    Domain,
}

/// The decimal text of a byte, as the connect-failure message shows it.
pub open spec fn connect_failed_text(code: u8) -> Seq<char> {
    "Tor SOCKS connect failed ("@ + decimal_of(code as u64) + ")"@
}

/// Reads the reply header `VER REP RSV ATYP`: success needs version 5 and
/// reply 0; the address type says how much of the reply remains.
pub fn socks_reply_tail(hdr: [u8; 4]) -> (r: Result<SocksTail, CoreError>)
    ensures
        !(hdr@[0] == 5 && hdr@[1] == 0) ==> (r matches Err(CoreError::Transport(m)) && m@
            == connect_failed_text(hdr@[1])),
        (hdr@[0] == 5 && hdr@[1] == 0) ==> match hdr@[3] {
            1 => r == Ok::<SocksTail, CoreError>(SocksTail::Skip(6)),
            3 => r == Ok::<SocksTail, CoreError>(SocksTail::Domain),
            4 => r == Ok::<SocksTail, CoreError>(SocksTail::Skip(18)),
            _ => r matches Err(CoreError::Transport(m)) && m@ == "Tor SOCKS address type"@,
        },
{
    if hdr[0] != 5 || hdr[1] != 0 {
        let mut m = String::from_str("Tor SOCKS connect failed (");
        let code = decimal(hdr[1] as u64);
        m.append(code.as_str());
        m.append(")");
        return Err(CoreError::Transport(m));
    }
    match hdr[3] {
        1 => Ok(SocksTail::Skip(6)),
        3 => Ok(SocksTail::Domain),
        4 => Ok(SocksTail::Skip(18)),
        _ => Err(CoreError::Transport(String::from_str("Tor SOCKS address type"))),
    }
}

/// Bytes to skip after a domain reply's length byte: the name and the port.
pub fn socks_domain_skip(len: u8) -> (n: usize)
    ensures
        n == len + 2,
{
    len as usize + 2
}

// ---------------------------------------------------------------------------
// HTTP/1.1 request head
// ---------------------------------------------------------------------------

/// One `name: value\r\n` line per header, in order.
pub open spec fn header_lines(h: Seq<(String, String)>) -> Seq<char>
    decreases h.len(),
{
    if h.len() == 0 {
        seq![]
    } else {
        header_lines(h.drop_last()) + h.last().0@ + ": "@ + h.last().1@ + "\r\n"@
    }
}

/// The request head sent through the tunnel: request line, `Host`,
/// `Connection: close`, the caller's headers, and for `POST` the CBOR
/// content type and the body's length, then the blank line.
pub open spec fn http1_head_of(
    method: Seq<char>,
    path: Seq<char>,
    host: Seq<char>,
    headers: Seq<(String, String)>,
    body_len: nat,
) -> Seq<char> {
    method + " "@ + path + " HTTP/1.1\r\nHost: "@ + host + "\r\nConnection: close\r\n"@
        + header_lines(headers) + (if method == "POST"@ {
        "content-type: application/cbor\r\n"@ + "content-length: "@ + decimal_of(body_len as u64)
            + "\r\n"@
    } else {
        Seq::<char>::empty()
    }) + "\r\n"@
}

fn is_post(method: &str) -> (r: bool)
    ensures
        r == (method@ == "POST"@),
{
    proof {
        reveal_strlit("POST");
    }
    let c = chars_of(method);
    let post = vec!['P', 'O', 'S', 'T'];
    assert(post@ =~= "POST"@);
    chars_eq(&c, &post)
}

/// The HTTP/1.1 request head for `req` to `host`.
pub fn http1_head(host: &str, req: &HttpRequest) -> (r: String)
    requires
        req.body@.len() <= u64::MAX,
    ensures
        r@ == http1_head_of(req.method@, req.path@, host@, req.headers@, req.body@.len()),
{
    let mut msg = String::from_str(req.method);
    msg.append(" ");
    msg.append(req.path.as_str());
    msg.append(" HTTP/1.1\r\nHost: ");
    msg.append(host);
    msg.append("\r\nConnection: close\r\n");
    let ghost start = msg@;
    let mut i: usize = 0;
    while i < req.headers.len()
        invariant
            i <= req.headers@.len(),
            msg@ == start + header_lines(req.headers@.take(i as int)),
        decreases req.headers@.len() - i,
    {
        let (k, v) = &req.headers[i];
        msg.append(k.as_str());
        msg.append(": ");
        msg.append(v.as_str());
        msg.append("\r\n");
        assert(req.headers@.take(i + 1).drop_last() =~= req.headers@.take(i as int));
        i = i + 1;
        assert(msg@ =~= start + header_lines(req.headers@.take(i as int)));
    }
    assert(req.headers@.take(i as int) =~= req.headers@);
    let ghost mid = msg@;
    if is_post(req.method) {
        msg.append("content-type: application/cbor\r\n");
        msg.append("content-length: ");
        let n = decimal(req.body.len() as u64);
        msg.append(n.as_str());
        msg.append("\r\n");
    }
    msg.append("\r\n");
    assert(msg@ =~= http1_head_of(req.method@, req.path@, host@, req.headers@, req.body@.len()));
    msg
}

} // verus!
