//! Lower-case hexadecimal and decimal text.

use vstd::prelude::*;

verus! {

pub open spec fn hex_char(n: u8) -> char {
    if n < 10 {
        (('0' as u8) + n) as char
    } else {
        (('a' as u8) + n - 10) as char
    }
}

/// Two lower-case hexadecimal digits per byte, high nibble first.
pub open spec fn hex_of(b: Seq<u8>) -> Seq<char>
    decreases b.len(),
{
    if b.len() == 0 {
        seq![]
    } else {
        hex_of(b.drop_last()) + seq![hex_char(b.last() >> 4u8), hex_char(b.last() & 0x0fu8)]
    }
}

fn hex_digit(n: u8) -> (s: &'static str)
    requires
        n < 16,
    ensures
        s@ == seq![hex_char(n)],
{
    proof {
        reveal_strlit("0");
        reveal_strlit("1");
        reveal_strlit("2");
        reveal_strlit("3");
        reveal_strlit("4");
        reveal_strlit("5");
        reveal_strlit("6");
        reveal_strlit("7");
        reveal_strlit("8");
        reveal_strlit("9");
        reveal_strlit("a");
        reveal_strlit("b");
        reveal_strlit("c");
        reveal_strlit("d");
        reveal_strlit("e");
        reveal_strlit("f");
    }
    let s = match n {
        0 => "0",
        1 => "1",
        2 => "2",
        3 => "3",
        4 => "4",
        5 => "5",
        6 => "6",
        7 => "7",
        8 => "8",
        9 => "9",
        10 => "a",
        11 => "b",
        12 => "c",
        13 => "d",
        14 => "e",
        _ => "f",
    };
    assert(s@ =~= seq![hex_char(n)]);
    s
}

/// The bytes as lower-case hexadecimal.
pub fn hex_bytes(bytes: &[u8]) -> (r: String)
    ensures
        r@ == hex_of(bytes@),
{
    let mut out = String::new();
    let mut i: usize = 0;
    while i < bytes.len()
        invariant
            i <= bytes@.len(),
            out@ == hex_of(bytes@.take(i as int)),
        decreases bytes@.len() - i,
    {
        let b = bytes[i];
        assert(b >> 4u8 < 16) by (bit_vector);
        assert(b & 0x0fu8 < 16) by (bit_vector);
        out.append(hex_digit(b >> 4u8));
        out.append(hex_digit(b & 0x0fu8));
        assert(bytes@.take(i + 1).drop_last() =~= bytes@.take(i as int));
        i = i + 1;
    }
    assert(bytes@.take(i as int) =~= bytes@);
    out
}

/// The decimal digits of `n`, most significant first, without leading
/// zeros.
pub open spec fn decimal_of(n: u64) -> Seq<char>
    decreases n,
{
    if n < 10 {
        seq![(('0' as u8) + (n as u8)) as char]
    } else {
        decimal_of(n / 10) + seq![(('0' as u8) + ((n % 10) as u8)) as char]
    }
}

fn dec_digit(n: u64) -> (s: &'static str)
    requires
        n < 10,
    ensures
        s@ == seq![(('0' as u8) + (n as u8)) as char],
{
    proof {
        reveal_strlit("0");
        reveal_strlit("1");
        reveal_strlit("2");
        reveal_strlit("3");
        reveal_strlit("4");
        reveal_strlit("5");
        reveal_strlit("6");
        reveal_strlit("7");
        reveal_strlit("8");
        reveal_strlit("9");
    }
    let s = match n {
        0 => "0",
        1 => "1",
        2 => "2",
        3 => "3",
        4 => "4",
        5 => "5",
        6 => "6",
        7 => "7",
        8 => "8",
        _ => "9",
    };
    assert(s@ =~= seq![(('0' as u8) + (n as u8)) as char]);
    s
}

/// `n` in decimal.
pub fn decimal(n: u64) -> (r: String)
    ensures
        r@ == decimal_of(n),
    decreases n,
{
    if n < 10 {
        String::from_str(dec_digit(n))
    } else {
        let mut s = decimal(n / 10);
        s.append(dec_digit(n % 10));
        s
    }
}

pub open spec fn pow10(k: nat) -> nat
    decreases k,
{
    if k == 0 {
        1
    } else {
        10 * pow10((k - 1) as nat)
    }
}

/// Decimal text is ASCII, one digit per power of ten.
pub proof fn lemma_decimal_ascii(n: u64, k: nat)
    requires
        k >= 1,
        n < pow10(k),
    ensures
        vstd::utf8::is_ascii_chars(decimal_of(n)),
        decimal_of(n).len() <= k,
    decreases n,
{
    if n >= 10 {
        assert(k >= 2) by {
            if k == 1 {
                assert(pow10(1) == 10) by {
                    reveal_with_fuel(pow10, 2);
                }
            }
        }
        assert(n / 10 < pow10((k - 1) as nat)) by (nonlinear_arith)
            requires
                n < pow10(k),
                pow10(k) == 10 * pow10((k - 1) as nat),
        ;
        lemma_decimal_ascii(n / 10, (k - 1) as nat);
    }
}

pub proof fn lemma_u64_digits(n: u64)
    ensures
        n < pow10(20),
{
    reveal_with_fuel(pow10, 21);
    assert(pow10(20) == 100000000000000000000nat);
}

/// Hexadecimal text is ASCII, two digits per byte.
pub proof fn lemma_hex_ascii(b: Seq<u8>)
    ensures
        vstd::utf8::is_ascii_chars(hex_of(b)),
        hex_of(b).len() == 2 * b.len(),
    decreases b.len(),
{
    if b.len() > 0 {
        lemma_hex_ascii(b.drop_last());
        let l = b.last();
        assert(l >> 4u8 < 16) by (bit_vector);
        assert(l & 0x0fu8 < 16) by (bit_vector);
    }
}

// ---------------------------------------------------------------------------
// Reading hexadecimal back
// ---------------------------------------------------------------------------

/// The value of a hexadecimal digit of either case; -1 for any other
/// character.
pub open spec fn hex_val(c: char) -> int {
    if '0' <= c <= '9' {
        (c as int) - ('0' as int)
    } else if 'a' <= c <= 'f' {
        (c as int) - ('a' as int) + 10
    } else if 'A' <= c <= 'F' {
        (c as int) - ('A' as int) + 10
    } else {
        -1
    }
}

/// The bytes spelled by an even number of hexadecimal digits, high digit
/// first; nothing for any other text.
pub open spec fn hex_decode(s: Seq<char>) -> Option<Seq<u8>> {
    if s.len() % 2 == 0 && forall|i: int| 0 <= i < s.len() ==> hex_val(#[trigger] s[i]) >= 0 {
        Some(Seq::new(s.len() / 2, |k: int| (hex_val(s[2 * k]) * 16 + hex_val(s[2 * k + 1])) as u8))
    } else {
        None
    }
}

fn digit_value(c: char) -> (r: Option<u8>)
    ensures
        hex_val(c) >= 0 ==> r == Some(hex_val(c) as u8),
        hex_val(c) < 0 ==> r is None,
{
    if '0' <= c && c <= '9' {
        Some((c as u32 - '0' as u32) as u8)
    } else if 'a' <= c && c <= 'f' {
        Some((c as u32 - 'a' as u32 + 10) as u8)
    } else if 'A' <= c && c <= 'F' {
        Some((c as u32 - 'A' as u32 + 10) as u8)
    } else {
        None
    }
}

/// Reads hexadecimal text back into bytes.
pub fn from_hex(s: &str) -> (r: Option<Vec<u8>>)
    ensures
        match hex_decode(s@) {
            Some(b) => r matches Some(v) && v@ == b,
            None => r is None,
        },
{
    let c = crate::ice::chars_of(s);
    let n = c.len();
    assert(c@.subrange(0, n as int) =~= s@);
    from_hex_chars(&c, 0, n)
}

/// Reads the hexadecimal text `c[a..b]` back into bytes.
pub fn from_hex_chars(c: &Vec<char>, a: usize, b: usize) -> (r: Option<Vec<u8>>)
    requires
        a <= b <= c@.len(),
    ensures
        match hex_decode(c@.subrange(a as int, b as int)) {
            Some(v) => r matches Some(x) && x@ == v,
            None => r is None,
        },
{
    let ghost t = c@.subrange(a as int, b as int);
    let n = b - a;
    if n % 2 != 0 {
        return None;
    }
    let mut out: Vec<u8> = Vec::new();
    let mut i: usize = 0;
    while i < n
        invariant
            t == c@.subrange(a as int, b as int),
            a <= b <= c@.len(),
            n == b - a,
            n % 2 == 0,
            i % 2 == 0,
            i <= n,
            out@.len() == i / 2,
            forall|j: int| 0 <= j < i ==> hex_val(#[trigger] t[j]) >= 0,
            forall|k: int| 0 <= k < i / 2 ==> #[trigger] out@[k] == (hex_val(t[2 * k]) * 16 + hex_val(
                t[2 * k + 1],
            )) as u8,
        decreases n - i,
    {
        assert(t[i as int] == c@[a + i]);
        assert(t[i + 1] == c@[a + i + 1]);
        let hi = match digit_value(c[a + i]) {
            Some(v) => v,
            None => {
                return None;
            },
        };
        let lo = match digit_value(c[a + i + 1]) {
            Some(v) => v,
            None => {
                return None;
            },
        };
        out.push(hi * 16 + lo);
        i = i + 2;
    }
    proof {
        let d = hex_decode(t);
        assert(d matches Some(v) && v =~= out@);
    }
    Some(out)
}

proof fn lemma_hex_of_index(b: Seq<u8>)
    ensures
        hex_of(b).len() == 2 * b.len(),
        forall|k: int| 0 <= k < b.len() ==> #[trigger] hex_of(b)[2 * k] == hex_char(b[k] >> 4u8)
            && hex_of(b)[2 * k + 1] == hex_char(b[k] & 0x0fu8),
    decreases b.len(),
{
    if b.len() > 0 {
        lemma_hex_of_index(b.drop_last());
        assert forall|k: int| 0 <= k < b.len() implies #[trigger] hex_of(b)[2 * k] == hex_char(
            b[k] >> 4u8,
        ) && hex_of(b)[2 * k + 1] == hex_char(b[k] & 0x0fu8) by {
            if k < b.len() - 1 {
                assert(b.drop_last()[k] == b[k]);
            }
        }
    }
}

/// Hexadecimal text reads back as the bytes it was written from.
pub proof fn law_hex_roundtrip(b: Seq<u8>)
    ensures
        hex_decode(hex_of(b)) == Some(b),
{
    lemma_hex_of_index(b);
    let h = hex_of(b);
    assert forall|i: int| 0 <= i < h.len() implies hex_val(#[trigger] h[i]) >= 0 by {
        let k = i / 2;
        let x = b[k];
        assert(x >> 4u8 < 16) by (bit_vector);
        assert(x & 0x0fu8 < 16) by (bit_vector);
        if i % 2 == 0 {
            assert(h[2 * k] == hex_char(x >> 4u8));
        } else {
            assert(i == 2 * k + 1);
            assert(h[2 * k] == hex_char(x >> 4u8));
            assert(h[2 * k + 1] == hex_char(x & 0x0fu8));
        }
    }
    let d = Seq::new(h.len() / 2, |k: int| (hex_val(h[2 * k]) * 16 + hex_val(h[2 * k + 1])) as u8);
    assert forall|k: int| 0 <= k < b.len() implies #[trigger] d[k] == b[k] by {
        let x = b[k];
        assert(x >> 4u8 < 16) by (bit_vector);
        assert(x & 0x0fu8 < 16) by (bit_vector);
        assert(hex_val(h[2 * k]) == (x >> 4u8) as int);
        assert(hex_val(h[2 * k + 1]) == (x & 0x0fu8) as int);
        assert(((x >> 4u8) as int) * 16 + ((x & 0x0fu8) as int) == x as int) by (bit_vector);
    }
    assert(d =~= b);
}

} // verus!
