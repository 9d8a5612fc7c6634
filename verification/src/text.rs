//! Text helpers: decimal digits in and out.

use vstd::prelude::*;
use vstd::utf8::{decode_utf8, valid_utf8};

verus! {

/// Appends `c` to `s` (`String::push`).
#[verifier::external_body]
pub(crate) fn push_char(s: &mut String, c: char)
    ensures
        final(s)@ == old(s)@.push(c),
{
    s.push(c);
}

/// The text that UTF-8 bytes encode, if they are valid UTF-8
/// (`String::from_utf8`).
#[verifier::external_body]
pub(crate) fn string_from_utf8(bytes: Vec<u8>) -> (res: Option<String>)
    ensures
        res is Some <==> valid_utf8(bytes@),
        res matches Some(s) ==> s@ == decode_utf8(bytes@),
{
    String::from_utf8(bytes).ok()
}

/// The character of a decimal digit.
pub open spec fn digit_char(d: nat) -> char {
    (48 + d) as char
}

/// The decimal digits of `n`, with no leading zeros.
pub open spec fn decimal(n: nat) -> Seq<char>
    decreases n,
{
    if n < 10 {
        seq![digit_char(n)]
    } else {
        decimal(n / 10).push(digit_char(n % 10))
    }
}

/// Appends the decimal digits of `n` to `s`.
pub fn push_decimal(s: &mut String, n: u64)
    ensures
        final(s)@ == old(s)@ + decimal(n as nat),
    decreases n,
{
    if n < 10 {
        push_char(s, ((48 + n) as u8) as char);
        assert(decimal(n as nat) =~= seq![digit_char(n as nat)]);
    } else {
        push_decimal(s, n / 10);
        push_char(s, ((48 + n % 10) as u8) as char);
        assert(decimal(n as nat) == decimal((n / 10) as nat).push(digit_char((n % 10) as nat)));
    }
}

/// Whether `b` is the byte of a decimal digit.
pub open spec fn is_digit(b: u8) -> bool {
    48 <= b <= 57
}

/// Whether every byte of `s` is a decimal digit.
pub open spec fn all_digits(s: Seq<u8>) -> bool {
    forall|i: int| 0 <= i < s.len() ==> is_digit(#[trigger] s[i])
}

/// The number that the decimal digits `s` stand for.
pub open spec fn digits_value(s: Seq<u8>) -> nat
    decreases s.len(),
{
    if s.len() == 0 {
        0
    } else {
        digits_value(s.drop_last()) * 10 + (s.last() - 48) as nat
    }
}

/// The index of the first `c` in `s`, or the length of `s` if there is none.
pub open spec fn first_index(s: Seq<u8>, c: u8) -> nat
    decreases s.len(),
{
    if s.len() == 0 {
        0
    } else if s[0] == c {
        0
    } else {
        1 + first_index(s.drop_first(), c)
    }
}

/// `first_index` is a position in `s`, or its end; there is no `c` before
/// it, and there is one at it unless it is the end.
pub proof fn lemma_first_index(s: Seq<u8>, c: u8)
    ensures
        first_index(s, c) <= s.len(),
        forall|j: int| 0 <= j < first_index(s, c) ==> s[j] != c,
        first_index(s, c) < s.len() ==> s[first_index(s, c) as int] == c,
    decreases s.len(),
{
    if s.len() > 0 && s[0] != c {
        lemma_first_index(s.drop_first(), c);
        assert forall|j: int| 0 <= j < first_index(s, c) implies s[j] != c by {
            if j > 0 {
                assert(s[j] == s.drop_first()[j - 1]);
            }
        }
    }
}

/// The index of the first `c` in `s` from `start` on, or the length of `s`.
pub fn find_byte(s: &[u8], start: usize, c: u8) -> (res: usize)
    requires
        start <= s@.len(),
    ensures
        res == start + first_index(s@.subrange(start as int, s@.len() as int), c),
{
    let mut i = start;
    proof {
        let sub = s@.subrange(start as int, s@.len() as int);
        lemma_first_index(sub, c);
        assert forall|j: int| start <= j < start + first_index(sub, c) implies s@[j] != c by {
            assert(sub[j - start] == s@[j]);
        }
    }
    while i < s.len() && s[i] != c
        invariant
            start <= i <= s@.len(),
            forall|j: int| start <= j < i ==> s@[j] != c,
            i <= start + first_index(s@.subrange(start as int, s@.len() as int), c),
            first_index(s@.subrange(start as int, s@.len() as int), c) <= s@.len() - start,
            forall|j: int| start <= j < start + first_index(s@.subrange(start as int, s@.len() as int), c)
                ==> s@[j] != c,
            start + first_index(s@.subrange(start as int, s@.len() as int), c) < s@.len()
                ==> s@[start + first_index(s@.subrange(start as int, s@.len() as int), c)] == c,
        decreases s@.len() - i,
    {
        i = i + 1;
    }
    i
}

/// The value of the decimal digits `s[start..end]`, if all of them are
/// digits and their value is at most `max`; `None` otherwise.
pub fn parse_digits(s: &[u8], start: usize, end: usize, max: u64) -> (res: Option<u64>)
    requires
        start <= end <= s@.len(),
    ensures
        match res {
            Some(v) => all_digits(s@.subrange(start as int, end as int))
                && v == digits_value(s@.subrange(start as int, end as int))
                && v <= max,
            None => !all_digits(s@.subrange(start as int, end as int))
                || digits_value(s@.subrange(start as int, end as int)) > max,
        },
{
    let ghost whole = s@.subrange(start as int, end as int);
    let mut v: u64 = 0;
    let mut i = start;
    while i < end
        invariant
            start <= i <= end <= s@.len(),
            whole == s@.subrange(start as int, end as int),
            all_digits(s@.subrange(start as int, i as int)),
            v == digits_value(s@.subrange(start as int, i as int)),
            v <= max,
        decreases end - i,
    {
        let b = s[i];
        let ghost prefix = s@.subrange(start as int, i as int);
        let ghost next = s@.subrange(start as int, i + 1);
        assert(next.drop_last() =~= prefix);
        assert(whole[i - start] == b);
        if b < 48 || b > 57 {
            return None;
        }
        let d = (b - 48) as u64;
        assert(all_digits(next));
        assert(digits_value(next) == v * 10 + d);
        if d > max || v > (max - d) / 10 {
            proof {
                assert(v * 10 + d > max) by (nonlinear_arith)
                    requires d > max || v > (max - d) / 10, d <= 9, v >= 0;
                assert(whole.subrange(0, i + 1 - start) =~= next);
                if all_digits(whole) {
                    lemma_digits_value_prefix(whole, (i + 1 - start) as nat);
                }
            }
            return None;
        }
        assert(v * 10 + d <= max) by (nonlinear_arith)
            requires v <= (max - d) / 10, d <= max;
        v = v * 10 + d;
        i = i + 1;
    }
    Some(v)
}

/// A run of digits stands for at least as much as any prefix of it.
pub proof fn lemma_digits_value_prefix(s: Seq<u8>, k: nat)
    requires
        k <= s.len(),
        all_digits(s),
    ensures
        digits_value(s) >= digits_value(s.subrange(0, k as int)),
    decreases s.len() - k,
{
    if k < s.len() {
        assert(all_digits(s.drop_last()));
        lemma_digits_value_prefix(s.drop_last(), k);
        assert(s.drop_last().subrange(0, k as int) =~= s.subrange(0, k as int));
        assert(digits_value(s) >= digits_value(s.drop_last())) by (nonlinear_arith)
            requires digits_value(s) == digits_value(s.drop_last()) * 10 + (s.last() - 48) as nat;
    } else {
        assert(s.subrange(0, k as int) =~= s);
    }
}

/// Bytes that are all below 128 (ASCII) are valid UTF-8.
pub proof fn lemma_ascii_valid_utf8(b: Seq<u8>)
    requires
        forall|i: int| 0 <= i < b.len() ==> #[trigger] b[i] < 128,
    ensures
        valid_utf8(b),
    decreases b.len(),
{
    if b.len() > 0 {
        let x = b[0];
        assert((x & 0x7f) as u32 <= 0x7f) by (bit_vector);
        let rest = vstd::utf8::pop_first_scalar(b);
        assert(rest =~= b.drop_first());
        lemma_ascii_valid_utf8(rest);
    }
}

} // verus!
