//! Decimal numbers: reading them as `str::parse` does for unsigned integer
//! types, and writing them as `Display` does.

use vstd::prelude::*;

verus! {

/// Whether `c` is an ASCII decimal digit.
pub open spec fn is_digit(c: char) -> bool {
    48 <= (c as u32) <= 57
}

/// The value of the ASCII digit `c`.
pub open spec fn digit_value(c: char) -> nat {
    ((c as u32) - 48) as nat
}

/// Whether every character of `s` is an ASCII digit.
pub open spec fn all_digits(s: Seq<char>) -> bool {
    forall|i: int| 0 <= i < s.len() ==> is_digit(#[trigger] s[i])
}

/// The value of the digit string `s`, most significant digit first.
pub open spec fn digits_value(s: Seq<char>) -> nat
    decreases s.len(),
{
    if s.len() == 0 {
        0
    } else {
        digits_value(s.drop_last()) * 10 + digit_value(s.last())
    }
}

/// `s` without one leading `'+'`.
pub open spec fn unsigned_body(s: Seq<char>) -> Seq<char> {
    if s.len() > 0 && s[0] == '+' {
        s.drop_first()
    } else {
        s
    }
}

/// The number that `s` denotes as an unsigned decimal integer: an optional
/// `'+'` and then one or more ASCII digits, and nothing else.
pub open spec fn parse_nat(s: Seq<char>) -> Option<nat> {
    let b = unsigned_body(s);
    if b.len() > 0 && all_digits(b) {
        Some(digits_value(b))
    } else {
        None
    }
}

/// `s.parse::<u64>().ok()`: the number when it is well formed and fits.
pub open spec fn parse_u64(s: Seq<char>) -> Option<u64> {
    match parse_nat(s) {
        Some(n) => if n <= u64::MAX {
            Some(n as u64)
        } else {
            None
        },
        None => None,
    }
}

/// `s.parse::<u32>().ok()`: the number when it is well formed and fits.
pub open spec fn parse_u32(s: Seq<char>) -> Option<u32> {
    match parse_nat(s) {
        Some(n) => if n <= u32::MAX {
            Some(n as u32)
        } else {
            None
        },
        None => None,
    }
}

/// A digit string is worth at least as much as any of its prefixes.
pub proof fn lemma_prefix_value_le(s: Seq<char>, k: int)
    requires
        0 <= k <= s.len(),
    ensures
        digits_value(s.take(k)) <= digits_value(s),
    decreases s.len(),
{
    if k < s.len() {
        lemma_prefix_value_le(s.drop_last(), k);
        assert(s.drop_last().take(k) =~= s.take(k));
    } else {
        assert(s.take(k) =~= s);
    }
}

/// Reads an unsigned decimal number that must fit in a `u64`.
pub fn parse_u64_chars(s: &[char]) -> (r: Option<u64>)
    ensures
        r == parse_u64(s@),
{
    let n = s.len();
    let mut start: usize = 0;
    if n > 0 && s[0] == '+' {
        start = 1;
    }
    let ghost b = unsigned_body(s@);
    assert(b =~= s@.skip(start as int));
    if start >= n {
        return None;
    }
    let mut acc: u64 = 0;
    let mut i: usize = start;
    assert(b.take(0) =~= Seq::<char>::empty());
    while i < n
        invariant
            n == s@.len(),
            start <= i <= n,
            b == s@.skip(start as int),
            b == unsigned_body(s@),
            acc == digits_value(b.take(i - start)),
            all_digits(b.take(i - start)),
        decreases n - i,
    {
        let c = s[i];
        let u = c as u32;
        assert(b[i - start] == c);
        if u < 48 || u > 57 {
            assert(!is_digit(b[i - start]));
            return None;
        }
        let d = (u - 48) as u64;
        let ghost next = b.take(i - start + 1);
        assert(next.drop_last() =~= b.take(i - start));
        assert(next.last() == c);
        assert(digits_value(next) == acc * 10 + d);
        let m = acc.checked_mul(10);
        if m.is_none() {
            proof {
                if all_digits(b) {
                    lemma_prefix_value_le(b, i - start + 1);
                }
            }
            return None;
        }
        let m = m.unwrap();
        let a = m.checked_add(d);
        if a.is_none() {
            proof {
                if all_digits(b) {
                    lemma_prefix_value_le(b, i - start + 1);
                }
            }
            return None;
        }
        acc = a.unwrap();
        i = i + 1;
    }
    assert(b.take(n - start) =~= b);
    Some(acc)
}

/// Reads an unsigned decimal number that must fit in a `u32`.
pub fn parse_u32_chars(s: &[char]) -> (r: Option<u32>)
    ensures
        r == parse_u32(s@),
{
    match parse_u64_chars(s) {
        Some(v) => if v <= 0xFFFF_FFFF {
            Some(v as u32)
        } else {
            None
        },
        None => None,
    }
}

/// The ASCII digit for `d < 10`.
pub open spec fn digit_char(d: nat) -> char {
    if d == 0 {
        '0'
    } else if d == 1 {
        '1'
    } else if d == 2 {
        '2'
    } else if d == 3 {
        '3'
    } else if d == 4 {
        '4'
    } else if d == 5 {
        '5'
    } else if d == 6 {
        '6'
    } else if d == 7 {
        '7'
    } else if d == 8 {
        '8'
    } else {
        '9'
    }
}

/// The decimal representation of `n`, without leading zeros
/// (`n.to_string()` for an unsigned integer).
pub open spec fn decimal(n: nat) -> Seq<char>
    decreases n,
{
    if n < 10 {
        seq![digit_char(n)]
    } else {
        decimal(n / 10).push(digit_char(n % 10))
    }
}

/// The ASCII digit for `d`.
pub fn digit_of(d: u128) -> (c: char)
    requires
        d < 10,
    ensures
        c == digit_char(d as nat),
{
    if d == 0 {
        '0'
    } else if d == 1 {
        '1'
    } else if d == 2 {
        '2'
    } else if d == 3 {
        '3'
    } else if d == 4 {
        '4'
    } else if d == 5 {
        '5'
    } else if d == 6 {
        '6'
    } else if d == 7 {
        '7'
    } else if d == 8 {
        '8'
    } else {
        '9'
    }
}

/// Appends the decimal representation of `n` to `out`.
pub fn push_decimal(out: &mut Vec<char>, n: u128)
    ensures
        final(out)@ == old(out)@ + decimal(n as nat),
    decreases n,
{
    if n >= 10 {
        push_decimal(out, n / 10);
    }
    out.push(digit_of(n % 10));
    assert(old(out)@ + decimal(n as nat) =~= final(out)@);
}

/// The decimal representation of `n`.
pub fn decimal_chars(n: u128) -> (r: Vec<char>)
    ensures
        r@ == decimal(n as nat),
{
    let mut r: Vec<char> = Vec::new();
    push_decimal(&mut r, n);
    assert(Seq::<char>::empty() + decimal(n as nat) =~= decimal(n as nat));
    r
}

/// Reading back the decimal text of a number gives the number: the text
/// that the process table shows for a PID parses to that PID.
pub proof fn law_decimal_parses_back(n: nat)
    ensures
        parse_nat(decimal(n)) == Some(n),
        n <= u64::MAX ==> parse_u64(decimal(n)) == Some(n as u64),
        n <= u32::MAX ==> parse_u32(decimal(n)) == Some(n as u32),
    decreases n,
{
    lemma_decimal_digits(n);
}

/// The decimal text of `n` is a non-empty digit string worth `n`.
proof fn lemma_decimal_digits(n: nat)
    ensures
        decimal(n).len() > 0,
        all_digits(decimal(n)),
        digits_value(decimal(n)) == n,
        decimal(n)[0] != '+',
    decreases n,
{
    if n < 10 {
        assert(digits_value(decimal(n)) == digits_value(decimal(n).drop_last()) * 10
            + digit_value(digit_char(n)));
        assert(decimal(n).drop_last() =~= Seq::<char>::empty());
    } else {
        lemma_decimal_digits(n / 10);
        assert(decimal(n).drop_last() =~= decimal(n / 10));
        assert(decimal(n)[0] == decimal(n / 10)[0]);
    }
}

} // verus!
