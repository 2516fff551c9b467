//! Numbers from one base of notation to another.
//!
//! The digits of a base up to 36 are the ten decimal digits and the letters
//! from `a` on, which stand for 10 and more; in a number that is read,
//! capital letters stand for the same.
use vstd::prelude::*;
use crate::text::{chars_of, digit_for, push_digit, split, split_by};

verus! {

/// The smallest base of notation.
pub const MIN_BASE: u32 = 2;

/// The largest base of notation.
pub const MAX_BASE: u32 = 36;

/// The value of the character `c` as a digit; 36 where it is no digit of
/// any base.
pub open spec fn digit_of(c: char) -> nat {
    if '0' <= c <= '9' {
        (c as int - '0' as int) as nat
    } else if 'a' <= c <= 'z' {
        (c as int - 'a' as int + 10) as nat
    } else if 'A' <= c <= 'Z' {
        (c as int - 'A' as int + 10) as nat
    } else {
        36
    }
}

/// Whether `s` is one digit of `base` or more, and nothing else.
pub open spec fn is_number_in(s: Seq<char>, base: nat) -> bool {
    s.len() > 0 && forall|i: int| 0 <= i < s.len() ==> digit_of(#[trigger] s[i]) < base
}

/// The number that the digits of `s` denote in `base`.
pub open spec fn value_in(s: Seq<char>, base: nat) -> nat
    decreases s.len(),
{
    if s.len() == 0 {
        0
    } else {
        base * value_in(s.drop_last(), base) + digit_of(s.last())
    }
}

/// The digits of `s`: what follows a plus sign, where `s` begins with one,
/// and the whole of `s` where it does not.
pub open spec fn unsigned_part(s: Seq<char>) -> Seq<char> {
    if s.len() > 0 && s[0] == '+' {
        s.skip(1)
    } else {
        s
    }
}

/// The number that `s` denotes in `base`: digits of that base, after a plus
/// sign or without one, whose value fits 32 bits.
pub open spec fn number_in(s: Seq<char>, base: nat) -> Option<u32> {
    let digits = unsigned_part(s);
    if is_number_in(digits, base) && value_in(digits, base) <= u32::MAX {
        Some(value_in(digits, base) as u32)
    } else {
        None
    }
}

/// The notation of `n` in `base`, without leading zeros.
pub open spec fn digits_in(n: nat, base: nat) -> Seq<char>
    decreases n,
{
    if n < base || base < 2 {
        seq![digit_for(n)]
    } else {
        proof {
            lemma_quotient_is_smaller(n, base);
        }
        digits_in(n / base, base).push(digit_for(n % base))
    }
}

/// A number that is not less than its divisor, which is 2 or more, is more
/// than the quotient.
pub proof fn lemma_quotient_is_smaller(n: nat, base: nat)
    requires
        2 <= base <= n,
    ensures
        n / base < n,
{
    assert(n / base < n) by (nonlinear_arith)
        requires
            2 <= base <= n,
    ;
}

/// The text between the first opening bracket of `text` and the closing
/// bracket that follows it: the base in which the number before the bracket
/// is written.  The outer option is empty where `text` has no opening
/// bracket.
pub open spec fn base_text(text: Seq<char>) -> Option<Seq<char>> {
    let parts = split_by(text, '(');
    if parts.len() < 2 {
        None
    } else {
        Some(split_by(parts[1], ')')[0])
    }
}

/// The number that `text` denotes: digits, an opening bracket, the base of
/// these digits in decimal notation, and a closing bracket, as in
/// `ff(16)`.  Nothing where the text is not of this shape, the base is not
/// one from 2 to 36, or the number does not fit 32 bits.
pub open spec fn source_number(text: Seq<char>) -> Option<u32> {
    match base_text(text) {
        None => None,
        Some(base) => match number_in(base, 10) {
            None => None,
            Some(b) => if MIN_BASE <= b <= MAX_BASE {
                number_in(split_by(text, '(')[0], b as nat)
            } else {
                None
            },
        },
    }
}

/// The value of `c` as a digit; 36 where it is no digit.
fn digit_value(c: char) -> (d: u32)
    ensures
        d == digit_of(c),
        d <= 36,
{
    if '0' <= c && c <= '9' {
        c as u32 - '0' as u32
    } else if 'a' <= c && c <= 'z' {
        c as u32 - 'a' as u32 + 10
    } else if 'A' <= c && c <= 'Z' {
        c as u32 - 'A' as u32 + 10
    } else {
        36
    }
}

/// Reads `text` as a number in `base`.
pub fn parse_in_base(text: &Vec<char>, base: u32) -> (r: Option<u32>)
    requires
        MIN_BASE <= base <= MAX_BASE,
    ensures
        r == number_in(text@, base as nat),
{
    let start: usize = if text.len() > 0 && text[0] == '+' {
        1
    } else {
        0
    };
    let ghost digits = unsigned_part(text@);
    assert(digits =~= text@.skip(start as int));
    if start == text.len() {
        assert(digits.len() == 0);
        return None;
    }
    let mut value: u64 = 0;
    let mut i: usize = start;
    assert(digits.take(0) =~= Seq::<char>::empty());
    while i < text.len()
        invariant
            start <= i <= text.len(),
            start <= 1,
            digits == text@.skip(start as int),
            digits == unsigned_part(text@),
            MIN_BASE <= base <= MAX_BASE,
            forall|j: int| 0 <= j < i - start ==> digit_of(#[trigger] digits[j]) < base,
            value == value_in(digits.take(i - start), base as nat),
            value <= u32::MAX,
        decreases text.len() - i,
    {
        let d: u32 = digit_value(text[i]);
        proof {
            let next = digits.take(i + 1 - start);
            assert(next.drop_last() =~= digits.take(i - start));
            assert(next.last() == text[i as int]);
            assert(digits[i - start] == text[i as int]);
        }
        if d >= base {
            assert(digit_of(digits[i - start]) >= base);
            return None;
        }
        assert(base * value <= 0xffff_ffff * 36) by (nonlinear_arith)
            requires
                0 <= value <= 0xffff_ffff,
                0 <= base <= 36,
        ;
        value = (base as u64) * value + d as u64;
        if value > u32::MAX as u64 {
            proof {
                lemma_value_grows(digits, i + 1 - start, base as nat);
            }
            return None;
        }
        i = i + 1;
    }
    assert(digits.take(i - start) =~= digits);
    Some(value as u32)
}

/// Appends the notation of `n` in `base` to `out`.
pub fn push_in_base(out: &mut String, n: u32, base: u32)
    requires
        MIN_BASE <= base <= MAX_BASE,
    ensures
        final(out)@ == old(out)@ + digits_in(n as nat, base as nat),
    decreases n,
{
    if n >= base {
        proof {
            lemma_quotient_is_smaller(n as nat, base as nat);
        }
        push_in_base(out, n / base, base);
    }
    let ghost c: char = digit_for((n % base) as nat);
    push_digit(out, (n % base) as u8);
    proof {
        if n >= base {
            assert(digits_in(n as nat, base as nat) == digits_in(
                (n as nat) / (base as nat),
                base as nat,
            ).push(digit_for((n as nat) % (base as nat))));
            assert(old(out)@ + digits_in((n / base) as nat, base as nat).push(c) =~= (old(out)@
                + digits_in((n / base) as nat, base as nat)).push(c));
        } else {
            assert(n % base == n) by (nonlinear_arith)
                requires
                    0 <= n < base,
            ;
            assert(old(out)@ + seq![c] =~= old(out)@.push(c));
        }
    }
}

/// Reads the number that `num_str` denotes: digits, an opening bracket, the
/// base of these digits in decimal notation, and a closing bracket.
pub fn read_number(num_str: &str) -> (r: Option<u32>)
    ensures
        r == source_number(num_str@),
{
    let chars: Vec<char> = chars_of(num_str);
    let parts: Vec<Vec<char>> = split(&chars, '(');
    if parts.len() < 2 {
        return None;
    }
    let base_part: Vec<Vec<char>> = split(&parts[1], ')');
    proof {
        crate::text::lemma_split_fields(parts[1]@, ')');
    }
    let src_base: u32 = match parse_in_base(&base_part[0], 10) {
        Some(b) => b,
        None => {
            return None;
        },
    };
    if src_base < MIN_BASE || src_base > MAX_BASE {
        return None;
    }
    parse_in_base(&parts[0], src_base)
}

/// The number that `num_str` denotes, written in the base `to_base`.
///
/// `num_str` holds the digits of the number, an opening bracket, the base
/// of these digits in decimal notation, and a closing bracket, as in
/// `ff(16)`.
pub fn convert_base(num_str: &str, to_base: u32) -> (converted: String)
    requires
        source_number(num_str@) is Some,
        MIN_BASE <= to_base <= MAX_BASE,
    ensures
        converted@ == digits_in(source_number(num_str@)->Some_0 as nat, to_base as nat),
{
    let num: u32 = read_number(num_str).unwrap();
    let mut result = String::new();
    push_in_base(&mut result, num, to_base);
    assert(result@ =~= digits_in(num as nat, to_base as nat));
    result
}

/// The value of a number does not fall where digits follow: a number with
/// a beginning too large for 32 bits is too large itself.
pub proof fn lemma_value_grows(s: Seq<char>, k: int, base: nat)
    requires
        0 <= k <= s.len(),
        base >= 1,
    ensures
        value_in(s.take(k), base) <= value_in(s, base),
    decreases s.len() - k,
{
    if k < s.len() {
        lemma_value_grows(s, k + 1, base);
        let next = s.take(k + 1);
        assert(next.drop_last() =~= s.take(k));
        assert(base * value_in(s.take(k), base) >= value_in(s.take(k), base))
            by (nonlinear_arith)
            requires
                base >= 1,
        ;
    } else {
        assert(s.take(k) =~= s);
    }
}

/// The notation of a number in a base is a number in that base, and reading
/// it gives the number back.
pub proof fn lemma_digits_round_trip(n: nat, base: nat)
    requires
        MIN_BASE <= base <= MAX_BASE,
    ensures
        is_number_in(digits_in(n, base), base),
        value_in(digits_in(n, base), base) == n,
    decreases n,
{
    let s = digits_in(n, base);
    if n < base {
        assert(s.drop_last() =~= Seq::<char>::empty());
        assert(value_in(s.drop_last(), base) == 0);
        assert(base * 0 == 0);
        assert(digit_of(digit_for(n)) == n);
    } else {
        lemma_quotient_is_smaller(n, base);
        lemma_digits_round_trip(n / base, base);
        assert(s.drop_last() =~= digits_in(n / base, base));
        assert(digit_of(digit_for(n % base)) == n % base);
        assert(base * (n / base) + n % base == n) by (nonlinear_arith)
            requires
                base >= 2,
        ;
        assert forall|i: int| 0 <= i < s.len() implies digit_of(#[trigger] s[i]) < base by {
            if i < s.len() - 1 {
                assert(s[i] == digits_in(n / base, base)[i]);
            }
        }
    }
}

} // verus!
