//! Integer parsing (`str::parse`, `from_str_radix`) and decimal formatting
//! (`ToString` for integers), specified over character sequences.

use vstd::prelude::*;

use crate::text::{chars_of, string_from};

verus! {

/// The value of one digit character in `radix` (10 or 16), if it is one.
pub open spec fn digit_value(c: char, radix: int) -> Option<int> {
    if '0' <= c <= '9' && (c as int) - ('0' as int) < radix {
        Some((c as int) - ('0' as int))
    } else if radix == 16 && 'a' <= c <= 'f' {
        Some((c as int) - ('a' as int) + 10)
    } else if radix == 16 && 'A' <= c <= 'F' {
        Some((c as int) - ('A' as int) + 10)
    } else {
        None
    }
}

/// Every character of `s` is a digit in `radix`.
pub open spec fn all_digits(s: Seq<char>, radix: int) -> bool {
    forall|i: int| 0 <= i < s.len() ==> (#[trigger] digit_value(s[i], radix)) is Some
}

/// The value of a digit string (most significant digit first).
pub open spec fn digits_value(s: Seq<char>, radix: int) -> int
    decreases s.len(),
{
    if s.len() == 0 {
        0
    } else {
        digits_value(s.drop_last(), radix) * radix + digit_value(s.last(), radix).unwrap()
    }
}

/// Optional sign followed by the digit body: `(negative, body)`.
pub open spec fn split_sign(s: Seq<char>) -> (bool, Seq<char>) {
    if s.len() > 0 && s[0] == '-' {
        (true, s.drop_first())
    } else if s.len() > 0 && s[0] == '+' {
        (false, s.drop_first())
    } else {
        (false, s)
    }
}

/// What `from_str_radix` (and `str::parse` for radix 10) returns for a signed
/// integer type whose range is `[lo, hi]`: an optional `+`/`-` sign followed by
/// one or more digits, with no surrounding whitespace, whose value fits.
pub open spec fn parse_int(s: Seq<char>, radix: int, lo: int, hi: int) -> Option<int> {
    let (neg, body) = split_sign(s);
    if body.len() == 0 || !all_digits(body, radix) {
        None
    } else {
        let v = if neg {
            -digits_value(body, radix)
        } else {
            digits_value(body, radix)
        };
        if lo <= v <= hi {
            Some(v)
        } else {
            None
        }
    }
}

proof fn lemma_digits_nonneg(s: Seq<char>, radix: int)
    requires
        all_digits(s, radix),
        radix == 10 || radix == 16,
    ensures
        digits_value(s, radix) >= 0,
    decreases s.len(),
{
    if s.len() > 0 {
        assert(digit_value(s[s.len() - 1], radix) is Some);
        lemma_digits_nonneg(s.drop_last(), radix);
    }
}

proof fn lemma_digits_prefix(s: Seq<char>, radix: int, k: int)
    requires
        all_digits(s, radix),
        radix == 10 || radix == 16,
        0 <= k <= s.len(),
    ensures
        digits_value(s.take(k), radix) <= digits_value(s, radix),
    decreases s.len(),
{
    if k < s.len() {
        assert(s.drop_last().take(k) =~= s.take(k));
        assert(digit_value(s[s.len() - 1], radix) is Some);
        lemma_digits_prefix(s.drop_last(), radix, k);
        lemma_digits_nonneg(s.drop_last(), radix);
        assert(digits_value(s.drop_last(), radix) * radix >= digits_value(s.drop_last(), radix))
            by (nonlinear_arith)
            requires
                digits_value(s.drop_last(), radix) >= 0,
                radix >= 10,
        ;
    } else {
        assert(s.take(k) =~= s);
    }
}

fn digit_of(c: char, radix: u32) -> (r: Option<u32>)
    requires
        radix == 10 || radix == 16,
    ensures
        r matches Some(d) ==> digit_value(c, radix as int) == Some(d as int) && d < radix,
        r is None ==> digit_value(c, radix as int) is None,
{
    if '0' <= c && c <= '9' && (c as u32) - ('0' as u32) < radix {
        Some((c as u32) - ('0' as u32))
    } else if radix == 16 && 'a' <= c && c <= 'f' {
        Some((c as u32) - ('a' as u32) + 10)
    } else if radix == 16 && 'A' <= c && c <= 'F' {
        Some((c as u32) - ('A' as u32) + 10)
    } else {
        None
    }
}

/// Parse a signed integer in `radix` whose range is `[lo, hi]`.
pub fn parse_int_chars(s: &[char], radix: u32, lo: i64, hi: i64) -> (r: Option<i64>)
    requires
        radix == 10 || radix == 16,
        lo <= 0 <= hi,
    ensures
        r matches Some(v) ==> parse_int(s@, radix as int, lo as int, hi as int) == Some(v as int),
        r is None ==> parse_int(s@, radix as int, lo as int, hi as int) is None,
{
    let mut start: usize = 0;
    let mut neg = false;
    if s.len() > 0 && s[0] == '-' {
        start = 1;
        neg = true;
    } else if s.len() > 0 && s[0] == '+' {
        start = 1;
    }
    let ghost body = split_sign(s@).1;
    assert(body =~= s@.subrange(start as int, s@.len() as int));
    if start == s.len() {
        return None;
    }
    let bound: i128 = 0x1_0000_0000_0000_0000;
    let mut acc: i128 = 0;
    let mut i = start;
    while i < s.len()
        invariant
            start <= i <= s@.len(),
            radix == 10 || radix == 16,
            body == s@.subrange(start as int, s@.len() as int),
            body == split_sign(s@).1,
            all_digits(body.take(i - start), radix as int),
            acc == digits_value(body.take(i - start), radix as int),
            0 <= acc <= bound,
            bound == 0x1_0000_0000_0000_0000i128,
        decreases s.len() - i,
    {
        let d = digit_of(s[i], radix);
        match d {
            None => {
                assert(body[i - start] == s@[i as int]);
                assert(digit_value(body[i - start], radix as int) is None);
                return None;
            },
            Some(d) => {
                let ghost pre = body.take(i - start);
                let ghost next = body.take(i - start + 1);
                assert(next.drop_last() =~= pre);
                assert(next.last() == s@[i as int]);
                assert(all_digits(next, radix as int)) by {
                    assert forall|j: int| 0 <= j < next.len() implies (#[trigger] digit_value(
                        next[j],
                        radix as int,
                    )) is Some by {
                        if j < next.len() - 1 {
                            assert(next[j] == pre[j]);
                        }
                    }
                }
                assert(acc * (radix as i128) <= bound * 16) by (nonlinear_arith)
                    requires
                        0 <= acc <= bound,
                        radix <= 16,
                ;
                acc = acc * (radix as i128) + (d as i128);
                i = i + 1;
                if acc > bound {
                    proof {
                        if all_digits(body, radix as int) {
                            lemma_digits_prefix(body, radix as int, i - start);
                        }
                    }
                    return None;
                }
            },
        }
    }
    assert(body.take(i - start) =~= body);
    let v: i128 = if neg {
        -acc
    } else {
        acc
    };
    if (lo as i128) <= v && v <= (hi as i128) {
        Some(v as i64)
    } else {
        None
    }
}

/// `str::parse::<i64>()`.
pub fn parse_i64(s: &str) -> (r: Option<i64>)
    ensures
        r matches Some(v) ==> parse_int(s@, 10, i64::MIN as int, i64::MAX as int) == Some(
            v as int,
        ),
        r is None ==> parse_int(s@, 10, i64::MIN as int, i64::MAX as int) is None,
{
    let v = chars_of(s);
    parse_int_chars(&v, 10, i64::MIN, i64::MAX)
}

/// `str::parse::<i32>()`.
pub fn parse_i32(s: &str) -> (r: Option<i32>)
    ensures
        r matches Some(v) ==> parse_int(s@, 10, i32::MIN as int, i32::MAX as int) == Some(
            v as int,
        ),
        r is None ==> parse_int(s@, 10, i32::MIN as int, i32::MAX as int) is None,
{
    let v = chars_of(s);
    match parse_int_chars(&v, 10, i32::MIN as i64, i32::MAX as i64) {
        Some(x) => Some(x as i32),
        None => None,
    }
}

// ---------------------------------------------------------------------------
// Decimal formatting
// ---------------------------------------------------------------------------

/// The decimal digit character for `d < 10`.
pub open spec fn digit_char(d: nat) -> char {
    ((d + ('0' as nat)) as u32) as char
}

/// Decimal representation of a natural number (no leading zeros).
pub open spec fn dec_nat(n: nat) -> Seq<char>
    decreases n,
{
    if n < 10 {
        seq![digit_char(n)]
    } else {
        dec_nat(n / 10).push(digit_char(n % 10))
    }
}

/// Decimal representation of an integer, as `ToString` writes it.
pub open spec fn dec_int(i: int) -> Seq<char> {
    if i < 0 {
        seq!['-'] + dec_nat((-i) as nat)
    } else {
        dec_nat(i as nat)
    }
}

/// Every digit of a decimal numeral is `0`–`9`, and it has at least one.
pub proof fn lemma_dec_nat_digits(n: nat)
    ensures
        dec_nat(n).len() >= 1,
        n >= 10 ==> dec_nat(n).len() >= 2,
        forall|k: int| 0 <= k < dec_nat(n).len() ==> '0' <= #[trigger] dec_nat(n)[k] <= '9',
    decreases n,
{
    if n >= 10 {
        lemma_dec_nat_digits(n / 10);
    }
}

proof fn lemma_digit_char_injective(x: nat, y: nat)
    requires
        x < 10,
        y < 10,
        digit_char(x) == digit_char(y),
    ensures
        x == y,
{
    assert(digit_char(x) as u32 == x + 48);
    assert(digit_char(y) as u32 == y + 48);
}

/// Distinct naturals have distinct numerals.
pub proof fn lemma_dec_nat_injective(a: nat, b: nat)
    requires
        dec_nat(a) == dec_nat(b),
    ensures
        a == b,
    decreases a,
{
    lemma_dec_nat_digits(a);
    lemma_dec_nat_digits(b);
    if a >= 10 && b >= 10 {
        assert(dec_nat(a).last() == digit_char(a % 10));
        assert(dec_nat(b).last() == digit_char(b % 10));
        assert(dec_nat(a).drop_last() =~= dec_nat(a / 10));
        assert(dec_nat(b).drop_last() =~= dec_nat(b / 10));
        lemma_dec_nat_injective(a / 10, b / 10);
        lemma_digit_char_injective(a % 10, b % 10);
    } else if a < 10 && b < 10 {
        assert(dec_nat(a) == seq![digit_char(a)]);
        assert(dec_nat(b) == seq![digit_char(b)]);
        assert(dec_nat(a)[0] == digit_char(a));
        assert(dec_nat(b)[0] == digit_char(b));
        lemma_digit_char_injective(a, b);
    } else {
        assert(dec_nat(a).len() != dec_nat(b).len());
    }
}

/// Distinct integers have distinct numerals.
pub proof fn lemma_dec_int_injective(a: int, b: int)
    requires
        dec_int(a) == dec_int(b),
    ensures
        a == b,
{
    lemma_dec_nat_digits(if a < 0 { (-a) as nat } else { a as nat });
    lemma_dec_nat_digits(if b < 0 { (-b) as nat } else { b as nat });
    if a < 0 && b < 0 {
        assert(dec_int(a).drop_first() =~= dec_nat((-a) as nat));
        assert(dec_int(b).drop_first() =~= dec_nat((-b) as nat));
        lemma_dec_nat_injective((-a) as nat, (-b) as nat);
    } else if a >= 0 && b >= 0 {
        lemma_dec_nat_injective(a as nat, b as nat);
    } else if a < 0 {
        assert(dec_int(a)[0] == '-');
        assert('0' <= dec_nat(b as nat)[0] <= '9');
    } else {
        assert(dec_int(b)[0] == '-');
        assert('0' <= dec_nat(a as nat)[0] <= '9');
    }
}

fn dec_u64_chars(n: u64) -> (r: Vec<char>)
    ensures
        r@ == dec_nat(n as nat),
    decreases n,
{
    let d = (n % 10) as u8;
    let c = (d + 48) as char;
    if n < 10 {
        let mut v: Vec<char> = Vec::new();
        v.push(c);
        v
    } else {
        let mut v = dec_u64_chars(n / 10);
        v.push(c);
        v
    }
}

/// `u64::to_string`.
pub fn u64_to_string(n: u64) -> (r: String)
    ensures
        r@ == dec_int(n as int),
{
    let v = dec_u64_chars(n);
    string_from(&v)
}

/// `i64::to_string`.
pub fn i64_to_string(n: i64) -> (r: String)
    ensures
        r@ == dec_int(n as int),
{
    if n < 0 {
        let m: u64 = (0i128 - (n as i128)) as u64;
        let mut v: Vec<char> = Vec::new();
        v.push('-');
        let w = dec_u64_chars(m);
        let mut i: usize = 0;
        while i < w.len()
            invariant
                i <= w@.len(),
                v@ == seq!['-'] + w@.take(i as int),
            decreases w.len() - i,
        {
            v.push(w[i]);
            i = i + 1;
            assert(v@ =~= seq!['-'] + w@.take(i as int));
        }
        assert(w@.take(i as int) =~= w@);
        string_from(&v)
    } else {
        let v = dec_u64_chars(n as u64);
        string_from(&v)
    }
}

} // verus!
