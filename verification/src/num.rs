//! Decimal integers: the text `str::parse` accepts and the text `to_string` produces.

use vstd::prelude::*;

verus! {

/// An ASCII decimal digit.
pub open spec fn is_digit(c: char) -> bool {
    '0' <= c && c <= '9'
}

/// Every character of `s` is an ASCII decimal digit.
pub open spec fn all_digits(s: Seq<char>) -> bool {
    forall|i: int| 0 <= i < s.len() ==> is_digit(#[trigger] s[i])
}

/// The value of the digit character `c`.
pub open spec fn digit_value(c: char) -> nat {
    ((c as int) - ('0' as int)) as nat
}

/// The value of a string of decimal digits (most significant first).
pub open spec fn digits_value(s: Seq<char>) -> nat
    decreases s.len(),
{
    if s.len() == 0 {
        0
    } else {
        digits_value(s.drop_last()) * 10 + digit_value(s.last())
    }
}

/// The value of an unsigned integer literal as `str::parse` for an unsigned type reads it:
/// an optional `+`, then at least one ASCII digit and nothing else.
pub open spec fn unsigned_value(s: Seq<char>) -> Option<nat> {
    let body = if s.len() > 0 && s[0] == '+' { s.skip(1) } else { s };
    if body.len() > 0 && all_digits(body) {
        Some(digits_value(body))
    } else {
        None
    }
}

/// The value of a signed integer literal as `str::parse` for a signed type reads it:
/// an optional `+` or `-`, then at least one ASCII digit and nothing else.
pub open spec fn signed_value(s: Seq<char>) -> Option<int> {
    let neg = s.len() > 0 && s[0] == '-';
    let body = if s.len() > 0 && (s[0] == '+' || s[0] == '-') { s.skip(1) } else { s };
    if body.len() > 0 && all_digits(body) {
        Some(if neg { -digits_value(body) } else { digits_value(body) as int })
    } else {
        None
    }
}

/// What `s.parse::<usize>()` returns.
pub open spec fn parse_usize_spec(s: Seq<char>) -> Option<usize> {
    match unsigned_value(s) {
        Some(v) => if v <= usize::MAX { Some(v as usize) } else { None },
        None => None,
    }
}

/// What `s.parse::<u64>()` returns.
pub open spec fn parse_u64_spec(s: Seq<char>) -> Option<u64> {
    match unsigned_value(s) {
        Some(v) => if v <= u64::MAX { Some(v as u64) } else { None },
        None => None,
    }
}

/// What `s.parse::<i64>()` returns.
pub open spec fn parse_i64_spec(s: Seq<char>) -> Option<i64> {
    match signed_value(s) {
        Some(v) => if i64::MIN <= v && v <= i64::MAX { Some(v as i64) } else { None },
        None => None,
    }
}

/// The character of a decimal digit value below ten.
pub open spec fn digit_char(d: nat) -> char {
    ((d + ('0' as int)) as u32) as char
}

/// The decimal text of a natural number, without leading zeros.
pub open spec fn nat_text(n: nat) -> Seq<char>
    decreases n,
{
    if n < 10 {
        seq![digit_char(n)]
    } else {
        nat_text(n / 10).push(digit_char(n % 10))
    }
}

/// The decimal text of an integer, with a leading `-` when negative.
pub open spec fn int_text(n: int) -> Seq<char> {
    if n < 0 {
        seq!['-'] + nat_text((-n) as nat)
    } else {
        nat_text(n as nat)
    }
}

/// Whether the character is an ASCII digit.
pub fn char_is_digit(c: char) -> (r: bool)
    ensures
        r == is_digit(c),
{
    '0' <= c && c <= '9'
}

fn digit_of(c: char) -> (d: u8)
    requires
        is_digit(c),
    ensures
        d == digit_value(c),
        d < 10,
{
    ((c as u32) - ('0' as u32)) as u8
}

/// The value of the decimal digits in `s[from..]`, capped at `cap`.
fn capped_digits_value(s: &[char], from: usize, cap: u128) -> (r: u128)
    requires
        from <= s.len(),
        all_digits(s@.skip(from as int)),
        cap <= u64::MAX as u128 + 1,
    ensures
        r == if digits_value(s@.skip(from as int)) < cap { digits_value(s@.skip(from as int)) } else { cap as nat },
{
    let ghost body = s@.skip(from as int);
    let mut acc: u128 = 0;
    let mut i = from;
    assert(body.take(0) == Seq::<char>::empty());
    while i < s.len()
        invariant
            from <= i <= s.len(),
            body == s@.skip(from as int),
            all_digits(body),
            cap <= u64::MAX as u128 + 1,
            acc == if digits_value(body.take(i - from)) < cap { digits_value(body.take(i - from)) } else { cap as nat },
        decreases s.len() - i,
    {
        let ghost prefix = body.take(i - from);
        let ghost next = body.take(i - from + 1);
        assert(next.drop_last() == prefix);
        assert(next.last() == s@[i as int]);
        assert(is_digit(body[i - from]));
        let d = digit_of(s[i]);
        let v = acc * 10 + d as u128;
        acc = if v < cap { v } else { cap };
        i = i + 1;
    }
    assert(body.take(i - from) == body);
    acc
}

/// `s.parse::<usize>()`.
pub fn parse_usize(s: &[char]) -> (r: Option<usize>)
    ensures
        r == parse_usize_spec(s@),
{
    let start: usize = if s.len() > 0 && s[0] == '+' { 1 } else { 0 };
    if start >= s.len() {
        return None;
    }
    proof {
        if start == 1 {
            assert(s@.skip(1) =~= s@.skip(start as int));
        } else {
            assert(s@ =~= s@.skip(0));
        }
    }
    for i in start..s.len()
        invariant
            start < s.len(),
            start == (if s@.len() > 0 && s@[0] == '+' { 1int } else { 0int }),
            forall|j: int| start <= j < i ==> is_digit(#[trigger] s@[j]),
    {
        if !char_is_digit(s[i]) {
            assert(s@.skip(start as int)[i - start] == s@[i as int]);
            return None;
        }
    }
    assert(all_digits(s@.skip(start as int)));
    let cap: u128 = usize::MAX as u128 + 1;
    let v = capped_digits_value(s, start, cap);
    if v < cap {
        Some(v as usize)
    } else {
        None
    }
}

/// `s.parse::<u64>()`.
pub fn parse_u64(s: &[char]) -> (r: Option<u64>)
    ensures
        r == parse_u64_spec(s@),
{
    let start: usize = if s.len() > 0 && s[0] == '+' { 1 } else { 0 };
    if start >= s.len() {
        return None;
    }
    proof {
        if start == 1 {
            assert(s@.skip(1) =~= s@.skip(start as int));
        } else {
            assert(s@ =~= s@.skip(0));
        }
    }
    for i in start..s.len()
        invariant
            start < s.len(),
            start == (if s@.len() > 0 && s@[0] == '+' { 1int } else { 0int }),
            forall|j: int| start <= j < i ==> is_digit(#[trigger] s@[j]),
    {
        if !char_is_digit(s[i]) {
            assert(s@.skip(start as int)[i - start] == s@[i as int]);
            return None;
        }
    }
    assert(all_digits(s@.skip(start as int)));
    let cap: u128 = u64::MAX as u128 + 1;
    let v = capped_digits_value(s, start, cap);
    if v < cap {
        Some(v as u64)
    } else {
        None
    }
}

/// `s.parse::<i64>()`.
pub fn parse_i64(s: &[char]) -> (r: Option<i64>)
    ensures
        r == parse_i64_spec(s@),
{
    let neg = s.len() > 0 && s[0] == '-';
    let start: usize = if s.len() > 0 && (s[0] == '+' || s[0] == '-') { 1 } else { 0 };
    if start >= s.len() {
        return None;
    }
    proof {
        if start == 1 {
            assert(s@.skip(1) =~= s@.skip(start as int));
        } else {
            assert(s@ =~= s@.skip(0));
        }
    }
    for i in start..s.len()
        invariant
            start < s.len(),
            start == (if s@.len() > 0 && (s@[0] == '+' || s@[0] == '-') { 1int } else { 0int }),
            forall|j: int| start <= j < i ==> is_digit(#[trigger] s@[j]),
    {
        if !char_is_digit(s[i]) {
            assert(s@.skip(start as int)[i - start] == s@[i as int]);
            return None;
        }
    }
    assert(all_digits(s@.skip(start as int)));
    let cap: u128 = 0x8000_0000_0000_0001;
    let v = capped_digits_value(s, start, cap);
    if neg {
        if v <= 0x8000_0000_0000_0000 {
            if v == 0x8000_0000_0000_0000 {
                Some(i64::MIN)
            } else {
                Some(-(v as i64))
            }
        } else {
            None
        }
    } else if v <= 0x7fff_ffff_ffff_ffff {
        Some(v as i64)
    } else {
        None
    }
}

fn digit_to_char(d: u64) -> (c: char)
    requires
        d < 10,
    ensures
        c == digit_char(d as nat),
{
    let b: u8 = (d as u8) + 48;
    b as char
}

fn push_nat_text(n: u64, out: &mut Vec<char>)
    ensures
        final(out)@ == old(out)@ + nat_text(n as nat),
    decreases n,
{
    if n < 10 {
        out.push(digit_to_char(n));
    } else {
        push_nat_text(n / 10, out);
        out.push(digit_to_char(n % 10));
    }
}

/// The decimal text of `n` (`u64::to_string`).
pub fn u64_text(n: u64) -> (r: Vec<char>)
    ensures
        r@ == nat_text(n as nat),
{
    let mut out: Vec<char> = Vec::new();
    push_nat_text(n, &mut out);
    out
}

/// The decimal text of `n` (`i64::to_string`).
pub fn i64_text(n: i64) -> (r: Vec<char>)
    ensures
        r@ == int_text(n as int),
{
    let mut out: Vec<char> = Vec::new();
    if n < 0 {
        out.push('-');
        let m: u64 = if n == i64::MIN { 0x8000_0000_0000_0000 } else { (-n) as u64 };
        push_nat_text(m, &mut out);
    } else {
        push_nat_text(n as u64, &mut out);
    }
    out
}

} // verus!
