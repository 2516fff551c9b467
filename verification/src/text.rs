//! Text as sequences of characters: splitting into fields, and numbers in
//! decimal notation.
use vstd::prelude::*;
use vstd::string::StringExecFns;

verus! {

/// Whether `c` is one of the ten decimal digits.
pub open spec fn is_digit(c: char) -> bool {
    '0' <= c <= '9'
}

/// The value of the decimal digit `c`.
pub open spec fn digit_value(c: char) -> nat {
    (c as int - '0' as int) as nat
}

/// The decimal digit of the value `d`, which is less than 10.
pub open spec fn digit_char(d: nat) -> char {
    ((d + 48) as u8) as char
}

/// The digit of the value `d`, which is less than 36: a decimal digit, or
/// a small letter for 10 and more.
pub open spec fn digit_for(d: nat) -> char {
    if d < 10 {
        digit_char(d)
    } else {
        ((d + 87) as u8) as char
    }
}

/// Whether `s` is a number in decimal notation: one digit or more, and
/// nothing else.
pub open spec fn is_decimal(s: Seq<char>) -> bool {
    s.len() > 0 && forall|i: int| 0 <= i < s.len() ==> is_digit(#[trigger] s[i])
}

/// The number that the digits of `s` denote, read from the left.
pub open spec fn decimal_value(s: Seq<char>) -> nat
    decreases s.len(),
{
    if s.len() == 0 {
        0
    } else {
        10 * decimal_value(s.drop_last()) + digit_value(s.last())
    }
}

/// The decimal notation of `n`, without leading zeros.
pub open spec fn decimal_digits(n: nat) -> Seq<char>
    decreases n,
{
    if n < 10 {
        seq![digit_char(n)]
    } else {
        decimal_digits(n / 10).push(digit_char(n % 10))
    }
}

/// The decimal notation of `n`, with zeros in front of it where it has
/// fewer than `width` digits.
pub open spec fn padded_digits(n: nat, width: nat) -> Seq<char> {
    let digits = decimal_digits(n);
    if digits.len() < width {
        Seq::new((width - digits.len()) as nat, |i: int| '0') + digits
    } else {
        digits
    }
}

/// The fields of `s` that the separator `sep` parts: the stretches of `s`
/// between one separator and the next, in order.  A text without a
/// separator is one field; a text with `n` separators has `n + 1` fields,
/// some of which may be empty.
pub open spec fn split_by(s: Seq<char>, sep: char) -> Seq<Seq<char>>
    decreases s.len(),
{
    if s.len() == 0 {
        seq![Seq::<char>::empty()]
    } else {
        let before = split_by(s.drop_last(), sep);
        if s.last() == sep {
            before.push(Seq::<char>::empty())
        } else {
            before.drop_last().push(before.last().push(s.last()))
        }
    }
}

/// The smaller of two numbers.
pub open spec fn at_most(value: nat, limit: nat) -> nat {
    if value <= limit {
        value
    } else {
        limit
    }
}

/// The characters of `s`.
pub fn chars_of(s: &str) -> (v: Vec<char>)
    ensures
        v@ == s@,
{
    let mut v: Vec<char> = Vec::new();
    for c in it: s.chars()
        invariant
            v@ == it.seq().take(it.index() as int),
            it.seq() == s@,
    {
        v.push(c);
    }
    v
}

/// Tells whether two texts hold the same characters.
pub fn same_text(a: &Vec<char>, b: &Vec<char>) -> (same: bool)
    ensures
        same == (a@ == b@),
{
    if a.len() != b.len() {
        return false;
    }
    let mut i: usize = 0;
    while i < a.len()
        invariant
            i <= a.len(),
            a.len() == b.len(),
            forall|j: int| 0 <= j < i ==> a[j] == b[j],
        decreases a.len() - i,
    {
        if a[i] != b[i] {
            return false;
        }
        i = i + 1;
    }
    assert(a@ =~= b@);
    true
}

/// Parts `text` into its fields at each occurrence of `sep`.
pub fn split(text: &Vec<char>, sep: char) -> (fields: Vec<Vec<char>>)
    ensures
        fields.len() == split_by(text@, sep).len(),
        forall|j: int| 0 <= j < fields.len() ==> (#[trigger] fields[j])@ == split_by(text@, sep)[j],
{
    let mut fields: Vec<Vec<char>> = Vec::new();
    let mut current: Vec<char> = Vec::new();
    let mut i: usize = 0;
    assert(text@.take(0) =~= Seq::<char>::empty());
    while i < text.len()
        invariant
            i <= text.len(),
            fields.len() + 1 == split_by(text@.take(i as int), sep).len(),
            forall|j: int|
                0 <= j < fields.len() ==> (#[trigger] fields[j])@ == split_by(
                    text@.take(i as int),
                    sep,
                )[j],
            current@ == split_by(text@.take(i as int), sep).last(),
        decreases text.len() - i,
    {
        let c: char = text[i];
        proof {
            let next = text@.take(i + 1);
            assert(next.drop_last() =~= text@.take(i as int));
            assert(next.last() == c);
        }
        if c == sep {
            fields.push(current);
            current = Vec::new();
        } else {
            current.push(c);
        }
        i = i + 1;
    }
    assert(text@.take(i as int) =~= text@);
    fields.push(current);
    fields
}

/// Reads `field` as a number in decimal notation.  Returns nothing where
/// the field is empty or holds anything but digits; a number too large for
/// the result is given as the largest that fits.
pub fn parse_decimal(field: &Vec<char>) -> (r: Option<u32>)
    ensures
        match r {
            Some(n) => is_decimal(field@) && n == at_most(decimal_value(field@), u32::MAX as nat),
            None => !is_decimal(field@),
        },
{
    if field.len() == 0 {
        return None;
    }
    let mut value: u64 = 0;
    let mut i: usize = 0;
    assert(field@.take(0) =~= Seq::<char>::empty());
    while i < field.len()
        invariant
            i <= field.len(),
            forall|j: int| 0 <= j < i ==> is_digit(#[trigger] field[j]),
            value == at_most(decimal_value(field@.take(i as int)), u32::MAX as nat),
        decreases field.len() - i,
    {
        let c: char = field[i];
        if !('0' <= c && c <= '9') {
            return None;
        }
        proof {
            let next = field@.take(i + 1);
            assert(next.drop_last() =~= field@.take(i as int));
            assert(next.last() == c);
        }
        let digit: u64 = (c as u32 - '0' as u32) as u64;
        value = value * 10 + digit;
        if value > u32::MAX as u64 {
            value = u32::MAX as u64;
        }
        i = i + 1;
    }
    assert(field@.take(i as int) =~= field@);
    Some(value as u32)
}

/// Appends the digit of the value `d` to `out`.
pub fn push_digit(out: &mut String, d: u8)
    requires
        d < 36,
    ensures
        final(out)@ == old(out)@.push(digit_for(d as nat)),
{
    let digit: &str = match d {
        0 => "0",
        1 => "1",
        2 => "2",
        3 => "3",
        4 => "4",
        5 => "5",
        6 => "6",
        7 => "7",
        8 => "8",
        9 => "9",
        10 => "a",
        11 => "b",
        12 => "c",
        13 => "d",
        14 => "e",
        15 => "f",
        16 => "g",
        17 => "h",
        18 => "i",
        19 => "j",
        20 => "k",
        21 => "l",
        22 => "m",
        23 => "n",
        24 => "o",
        25 => "p",
        26 => "q",
        27 => "r",
        28 => "s",
        29 => "t",
        30 => "u",
        31 => "v",
        32 => "w",
        33 => "x",
        34 => "y",
        _ => "z",
    };
    proof {
        reveal_strlit("0");
        reveal_strlit("1");
        reveal_strlit("2");
        reveal_strlit("3");
        reveal_strlit("4");
        reveal_strlit("5");
        reveal_strlit("6");
        reveal_strlit("7");
        reveal_strlit("8");
        reveal_strlit("9");
        reveal_strlit("a");
        reveal_strlit("b");
        reveal_strlit("c");
        reveal_strlit("d");
        reveal_strlit("e");
        reveal_strlit("f");
        reveal_strlit("g");
        reveal_strlit("h");
        reveal_strlit("i");
        reveal_strlit("j");
        reveal_strlit("k");
        reveal_strlit("l");
        reveal_strlit("m");
        reveal_strlit("n");
        reveal_strlit("o");
        reveal_strlit("p");
        reveal_strlit("q");
        reveal_strlit("r");
        reveal_strlit("s");
        reveal_strlit("t");
        reveal_strlit("u");
        reveal_strlit("v");
        reveal_strlit("w");
        reveal_strlit("x");
        reveal_strlit("y");
        reveal_strlit("z");
    }
    out.append(digit);
    assert(out@ =~= old(out)@.push(digit_for(d as nat)));
}

/// Appends a comma to `out`.
pub fn push_comma(out: &mut String)
    ensures
        final(out)@ == old(out)@.push(','),
{
    proof {
        reveal_strlit(",");
    }
    out.append(",");
    assert(out@ =~= old(out)@.push(','));
}

/// Appends a hyphen to `out`.
pub fn push_hyphen(out: &mut String)
    ensures
        final(out)@ == old(out)@.push('-'),
{
    proof {
        reveal_strlit("-");
    }
    out.append("-");
    assert(out@ =~= old(out)@.push('-'));
}

/// Appends a decimal point to `out`.
pub fn push_point(out: &mut String)
    ensures
        final(out)@ == old(out)@.push('.'),
{
    proof {
        reveal_strlit(".");
    }
    out.append(".");
    assert(out@ =~= old(out)@.push('.'));
}

/// Appends the decimal notation of `n` to `out`.
pub fn push_decimal(out: &mut String, n: u64)
    ensures
        final(out)@ == old(out)@ + decimal_digits(n as nat),
    decreases n,
{
    if n >= 10 {
        push_decimal(out, n / 10);
    }
    push_digit(out, (n % 10) as u8);
    proof {
        if n >= 10 {
            assert(old(out)@ + decimal_digits((n / 10) as nat).push(digit_char((n % 10) as nat))
                =~= (old(out)@ + decimal_digits((n / 10) as nat)).push(
                digit_char((n % 10) as nat),
            ));
        } else {
            assert(old(out)@ + seq![digit_char(n as nat)] =~= old(out)@.push(digit_char(n as nat)));
        }
    }
}

/// The number of digits of the decimal notation of `n`.
pub fn count_digits(n: u32) -> (count: usize)
    ensures
        count == decimal_digits(n as nat).len(),
        1 <= count <= 10,
    decreases n,
{
    if n >= 10 {
        let shorter: usize = count_digits(n / 10);
        proof {
            lemma_digits_bound(n as nat);
        }
        shorter + 1
    } else {
        1
    }
}

/// Appends the decimal notation of `n` to `out`, after as many zeros as it
/// has fewer digits than `width`.
pub fn push_padded(out: &mut String, n: u32, width: usize)
    ensures
        final(out)@ == old(out)@ + padded_digits(n as nat, width as nat),
{
    let count: usize = count_digits(n);
    let mut zeros: usize = 0;
    let missing: usize = if count < width {
        width - count
    } else {
        0
    };
    while zeros < missing
        invariant
            zeros <= missing,
            out@ == old(out)@ + Seq::new(zeros as nat, |i: int| '0'),
        decreases missing - zeros,
    {
        push_digit(out, 0);
        assert(out@ =~= old(out)@ + Seq::new((zeros + 1) as nat, |i: int| '0'));
        zeros = zeros + 1;
    }
    push_decimal(out, n as u64);
    assert(out@ =~= old(out)@ + padded_digits(n as nat, width as nat));
}

/// A number below the `k`-th power of ten has at most `k` digits; a number
/// that fits 32 bits has at most ten.
pub proof fn lemma_digits_bound(n: nat)
    ensures
        decimal_digits(n).len() >= 1,
        n < 10 ==> decimal_digits(n).len() == 1,
        n < 100 ==> decimal_digits(n).len() <= 2,
        n < 1000 ==> decimal_digits(n).len() <= 3,
        n < 10000 ==> decimal_digits(n).len() <= 4,
        n < 100000 ==> decimal_digits(n).len() <= 5,
        n < 1000000 ==> decimal_digits(n).len() <= 6,
        n < 10000000 ==> decimal_digits(n).len() <= 7,
        n < 100000000 ==> decimal_digits(n).len() <= 8,
        n < 1000000000 ==> decimal_digits(n).len() <= 9,
        n < 10000000000 ==> decimal_digits(n).len() <= 10,
    decreases n,
{
    if n >= 10 {
        lemma_digits_bound(n / 10);
    }
}

/// The decimal notation of a number is a number in decimal notation, and
/// reading it gives the number back.
pub proof fn lemma_decimal_round_trip(n: nat)
    ensures
        is_decimal(decimal_digits(n)),
        decimal_value(decimal_digits(n)) == n,
    decreases n,
{
    if n < 10 {
        let s = decimal_digits(n);
        assert(s.drop_last() =~= Seq::<char>::empty());
        assert(decimal_value(s.drop_last()) == 0);
    } else {
        lemma_decimal_round_trip(n / 10);
        let s = decimal_digits(n);
        assert(s.drop_last() =~= decimal_digits(n / 10));
    }
}

/// The fields of a text hold no separator, and there is one more of them
/// than the text has separators: the text is the fields with one separator
/// between each two.
pub proof fn lemma_split_fields(s: Seq<char>, sep: char)
    ensures
        split_by(s, sep).len() >= 1,
        forall|j: int, i: int|
            0 <= j < split_by(s, sep).len() && 0 <= i < split_by(s, sep)[j].len() ==> split_by(
                s,
                sep,
            )[j][i] != sep,
        join(split_by(s, sep), sep) == s,
    decreases s.len(),
{
    if s.len() > 0 {
        let before = split_by(s.drop_last(), sep);
        lemma_split_fields(s.drop_last(), sep);
        let fields = split_by(s, sep);
        if s.last() == sep {
            assert(fields.drop_last() =~= before);
            assert(join(fields, sep) =~= s.drop_last().push(sep) + Seq::<char>::empty());
            assert(s.drop_last().push(sep) =~= s);
        } else {
            assert(fields.drop_last() =~= before.drop_last());
            assert(fields.last() == before.last().push(s.last()));
            if before.len() == 1 {
                assert(join(before, sep) == before[0]);
                assert(join(fields, sep) == fields[0]);
                assert(fields[0] =~= s);
            } else {
                assert(join(before, sep)
                    == join(before.drop_last(), sep).push(sep) + before.last());
                assert(join(fields, sep) == join(fields.drop_last(), sep).push(sep)
                    + fields.last());
                assert(join(fields, sep) =~= s.drop_last().push(s.last()));
            }
            assert(s.drop_last().push(s.last()) =~= s);
        }
    } else {
        assert(split_by(s, sep)[0] =~= s);
    }
}

/// The fields put together again, with one separator between each two.
pub open spec fn join(fields: Seq<Seq<char>>, sep: char) -> Seq<char>
    decreases fields.len(),
{
    if fields.len() == 0 {
        Seq::<char>::empty()
    } else if fields.len() == 1 {
        fields[0]
    } else {
        join(fields.drop_last(), sep).push(sep) + fields.last()
    }
}

/// Whether `c` is white space.
pub open spec fn is_space(c: char) -> bool {
    ||| '\u{9}' <= c <= '\u{d}'
    ||| c == ' '
    ||| c == '\u{85}'
    ||| c == '\u{a0}'
    ||| c == '\u{1680}'
    ||| '\u{2000}' <= c <= '\u{200a}'
    ||| c == '\u{2028}'
    ||| c == '\u{2029}'
    ||| c == '\u{202f}'
    ||| c == '\u{205f}'
    ||| c == '\u{3000}'
}

/// `s` without the white space at its start.
pub open spec fn trim_start_of(s: Seq<char>) -> Seq<char>
    decreases s.len(),
{
    if s.len() > 0 && is_space(s[0]) {
        trim_start_of(s.skip(1))
    } else {
        s
    }
}

/// `s` without the white space at its end.
pub open spec fn trim_end_of(s: Seq<char>) -> Seq<char>
    decreases s.len(),
{
    if s.len() > 0 && is_space(s.last()) {
        trim_end_of(s.drop_last())
    } else {
        s
    }
}

/// `s` without the white space at its start and at its end.
pub open spec fn trim_of(s: Seq<char>) -> Seq<char> {
    trim_end_of(trim_start_of(s))
}

/// `s` without the occurrences of `c`.
pub open spec fn without(s: Seq<char>, c: char) -> Seq<char>
    decreases s.len(),
{
    if s.len() == 0 {
        s
    } else if s.last() == c {
        without(s.drop_last(), c)
    } else {
        without(s.drop_last(), c).push(s.last())
    }
}

/// Tells whether `c` is white space.
pub fn is_white_space(c: char) -> (space: bool)
    ensures
        space == is_space(c),
{
    ('\u{9}' <= c && c <= '\u{d}') || c == ' ' || c == '\u{85}' || c == '\u{a0}' || c
        == '\u{1680}' || ('\u{2000}' <= c && c <= '\u{200a}') || c == '\u{2028}' || c
        == '\u{2029}' || c == '\u{202f}' || c == '\u{205f}' || c == '\u{3000}'
}

/// `text` without the white space at its start and at its end.
pub fn trim(text: &Vec<char>) -> (trimmed: Vec<char>)
    ensures
        trimmed@ == trim_of(text@),
{
    let mut lo: usize = 0;
    assert(text@.skip(0) =~= text@);
    while lo < text.len() && is_white_space(text[lo])
        invariant
            lo <= text.len(),
            trim_start_of(text@) == trim_start_of(text@.skip(lo as int)),
        decreases text.len() - lo,
    {
        proof {
            assert(text@.skip(lo as int).skip(1) =~= text@.skip(lo + 1));
        }
        lo = lo + 1;
    }
    let ghost started = text@.skip(lo as int);
    assert(trim_start_of(text@) == started);
    let mut hi: usize = text.len();
    assert(text@.subrange(lo as int, hi as int) =~= started);
    while hi > lo && is_white_space(text[hi - 1])
        invariant
            lo <= hi <= text.len(),
            trim_end_of(started) == trim_end_of(text@.subrange(lo as int, hi as int)),
        decreases hi,
    {
        proof {
            assert(text@.subrange(lo as int, hi as int).drop_last() =~= text@.subrange(
                lo as int,
                hi - 1,
            ));
        }
        hi = hi - 1;
    }
    let mut trimmed: Vec<char> = Vec::new();
    let mut i: usize = lo;
    while i < hi
        invariant
            lo <= i <= hi <= text.len(),
            trimmed@ == text@.subrange(lo as int, i as int),
        decreases hi - i,
    {
        trimmed.push(text[i]);
        assert(trimmed@ =~= text@.subrange(lo as int, i + 1));
        i = i + 1;
    }
    trimmed
}

/// Tells whether `c` occurs in `text`.
pub fn has_char(text: &Vec<char>, c: char) -> (found: bool)
    ensures
        found == text@.contains(c),
{
    let mut i: usize = 0;
    while i < text.len()
        invariant
            i <= text.len(),
            forall|j: int| 0 <= j < i ==> text[j] != c,
        decreases text.len() - i,
    {
        if text[i] == c {
            return true;
        }
        i = i + 1;
    }
    false
}

/// `text` without the occurrences of `c`.
pub fn remove_char(text: &Vec<char>, c: char) -> (left: Vec<char>)
    ensures
        left@ == without(text@, c),
{
    let mut left: Vec<char> = Vec::new();
    let mut i: usize = 0;
    assert(text@.take(0) =~= Seq::<char>::empty());
    while i < text.len()
        invariant
            i <= text.len(),
            left@ == without(text@.take(i as int), c),
        decreases text.len() - i,
    {
        proof {
            let next = text@.take(i + 1);
            assert(next.drop_last() =~= text@.take(i as int));
            assert(next.last() == text[i as int]);
        }
        if text[i] != c {
            left.push(text[i]);
        }
        i = i + 1;
    }
    assert(text@.take(i as int) =~= text@);
    left
}

} // verus!
