//! Decimal numerals: the number that digits write, and the digits that
//! write a number.

use crate::text::ascii;
use vstd::prelude::*;
use vstd::string::StringExecFns;
use vstd::utf8::is_ascii_chars;

verus! {

/// Whether `b` is a decimal digit.
pub open spec fn is_digit(b: u8) -> bool {
    '0' as u8 <= b && b <= '9' as u8
}

/// Every byte of `s` is a digit.
pub open spec fn all_digits(s: Seq<u8>) -> bool {
    forall|i: int| 0 <= i < s.len() ==> is_digit(#[trigger] s[i])
}

/// How many digits `s` begins with.
pub open spec fn digit_run(s: Seq<u8>) -> nat
    decreases s.len(),
{
    if s.len() > 0 && is_digit(s[0]) {
        1 + digit_run(s.drop_first())
    } else {
        0
    }
}

/// A run of digits is within the text, holds digits only, and ends at the
/// end of the text or before a byte that is no digit.
pub proof fn lemma_digit_run(s: Seq<u8>)
    ensures
        digit_run(s) <= s.len(),
        all_digits(s.take(digit_run(s) as int)),
        digit_run(s) < s.len() ==> !is_digit(s[digit_run(s) as int]),
    decreases s.len(),
{
    if s.len() > 0 && is_digit(s[0]) {
        let rest = s.drop_first();
        lemma_digit_run(rest);
        let run = s.take(digit_run(s) as int);
        assert forall|i: int| 0 <= i < run.len() implies is_digit(#[trigger] run[i]) by {
            if i > 0 {
                assert(run[i] == rest.take(digit_run(rest) as int)[i - 1]);
            }
        }
    }
}

/// A text is all digits just where its run of digits is the whole of it.
pub proof fn lemma_all_digits_is_full_run(s: Seq<u8>)
    ensures
        all_digits(s) <==> digit_run(s) == s.len(),
{
    lemma_digit_run(s);
    if digit_run(s) == s.len() {
        assert(s.take(s.len() as int) =~= s);
    }
}

/// A run of digits is all of the digits in front where what follows does
/// not begin with a digit.
pub proof fn lemma_digit_run_of_digits(digits: Seq<u8>, rest: Seq<u8>)
    requires
        all_digits(digits),
        rest.len() == 0 || !is_digit(rest[0]),
    ensures
        digit_run(digits + rest) == digits.len(),
    decreases digits.len(),
{
    let text = digits + rest;
    if digits.len() == 0 {
        assert(text =~= rest);
    } else {
        assert(text[0] == digits[0]);
        assert(is_digit(digits[0]));
        assert(text.drop_first() =~= digits.drop_first() + rest);
        assert forall|i: int| 0 <= i < digits.drop_first().len() implies is_digit(
            #[trigger] digits.drop_first()[i],
        ) by {
            assert(digits.drop_first()[i] == digits[i + 1]);
        }
        lemma_digit_run_of_digits(digits.drop_first(), rest);
    }
}

/// The index at which the digits that `s` holds from `from` on come to an
/// end.
pub fn scan_digits(s: &[u8], from: usize) -> (end: usize)
    requires
        from <= s.len(),
    ensures
        end == from + digit_run(s@.skip(from as int)),
        from <= end <= s.len(),
{
    let mut end: usize = from;
    while end < s.len() && '0' as u8 <= s[end] && s[end] <= '9' as u8
        invariant
            from <= end <= s.len(),
            digit_run(s@.skip(from as int)) == (end - from) + digit_run(s@.skip(end as int)),
        decreases s.len() - end,
    {
        assert(s@.skip(end as int).drop_first() =~= s@.skip(end + 1));
        end += 1;
    }
    end
}

/// The number that the digits `s` write; 0 for no digit at all.
pub open spec fn digits_value(s: Seq<u8>) -> nat
    decreases s.len(),
{
    if s.len() == 0 {
        0
    } else {
        10 * digits_value(s.drop_last()) + (s.last() - '0' as u8) as nat
    }
}

/// Digits that follow make a number no smaller.
pub proof fn lemma_digits_value_grows(s: Seq<u8>, k: int)
    requires
        all_digits(s),
        0 <= k <= s.len(),
    ensures
        digits_value(s.take(k)) <= digits_value(s),
    decreases s.len(),
{
    if k < s.len() {
        assert(is_digit(s.last()));
        assert(s.drop_last().take(k) =~= s.take(k));
        lemma_digits_value_grows(s.drop_last(), k);
    } else {
        assert(s.take(k) =~= s);
    }
}

/// Ten to the power of `e`.
pub open spec fn pow10(e: nat) -> nat
    decreases e,
{
    if e == 0 {
        1
    } else {
        10 * pow10((e - 1) as nat)
    }
}

/// A number of `s.len()` digits is below ten to that power.
pub proof fn lemma_digits_value_bound(s: Seq<u8>)
    requires
        all_digits(s),
    ensures
        digits_value(s) < pow10(s.len()),
    decreases s.len(),
{
    if s.len() > 0 {
        assert(is_digit(s.last()));
        assert forall|i: int| 0 <= i < s.drop_last().len() implies is_digit(
            #[trigger] s.drop_last()[i],
        ) by {
            assert(s.drop_last()[i] == s[i]);
        }
        lemma_digits_value_bound(s.drop_last());
    }
}

/// The number that the digits of `s` from `lo` to `hi` write, where it is
/// no more than `limit`.
pub fn digits_to_number(s: &[u8], lo: usize, hi: usize, limit: u64) -> (n: Option<u64>)
    requires
        lo <= hi <= s.len(),
        all_digits(s@.subrange(lo as int, hi as int)),
        limit <= 1_000_000_000_000_000_000,
    ensures
        n == (if digits_value(s@.subrange(lo as int, hi as int)) <= limit {
            Some(digits_value(s@.subrange(lo as int, hi as int)) as u64)
        } else {
            None
        }),
{
    let ghost all = s@.subrange(lo as int, hi as int);
    let mut n: u64 = 0;
    let mut i: usize = lo;
    while i < hi
        invariant
            lo <= i <= hi <= s.len(),
            all == s@.subrange(lo as int, hi as int),
            all_digits(all),
            limit <= 1_000_000_000_000_000_000,
            n == digits_value(s@.subrange(lo as int, i as int)),
            n <= limit,
        decreases hi - i,
    {
        proof {
            assert(s@.subrange(lo as int, i + 1).drop_last() =~= s@.subrange(lo as int, i as int));
            assert(is_digit(all[i - lo]));
            assert(all.take(i + 1 - lo) =~= s@.subrange(lo as int, i + 1));
            lemma_digits_value_grows(all, i + 1 - lo);
        }
        let d: u64 = (s[i] - '0' as u8) as u64;
        let next: u64 = 10 * n + d;
        if next > limit {
            return None;
        }
        n = next;
        i += 1;
    }
    assert(s@.subrange(lo as int, i as int) =~= all);
    Some(n)
}

/// Whether `b` is a plus or a minus sign.
pub open spec fn is_sign(b: u8) -> bool {
    b == '+' as u8 || b == '-' as u8
}

/// `text` without the sign that it may begin with.
pub open spec fn unsigned_part(text: Seq<u8>) -> Seq<u8> {
    if text.len() > 0 && is_sign(text[0]) {
        text.skip(1)
    } else {
        text
    }
}

/// What `atoi` makes of `text`, for an unsigned type whose largest value is
/// `max`.
///
/// The text may begin with a sign. The digits that follow are read as a
/// decimal number, and what follows them is ignored. There is no number
/// where the text begins with neither a sign nor a digit, where the number
/// is above `max`, and where a minus sign stands before a number other than
/// zero. A sign with no digit behind it reads as zero.
pub open spec fn atoi_value(text: Seq<u8>, max: nat) -> Option<nat> {
    let signed = text.len() > 0 && is_sign(text[0]);
    let body = unsigned_part(text);
    let value = digits_value(body.take(digit_run(body) as int));
    if !signed && digit_run(body) == 0 {
        None
    } else if signed && text[0] == '-' as u8 {
        if value == 0 {
            Some(0nat)
        } else {
            None
        }
    } else if value <= max {
        Some(value)
    } else {
        None
    }
}

/// `atoi::atoi::<u32>`: the number that `text` begins with, as
/// [`atoi_value`] describes it for the range of a `u32`.
#[verifier::external_body]
pub(crate) fn atoi_u32(text: &[u8]) -> (n: Option<u32>)
    ensures
        match atoi_value(text@, u32::MAX as nat) {
            Some(value) => n == Some(value as u32),
            None => n is None,
        },
{
    atoi::atoi::<u32>(text)
}

/// The character that stands for the digit `d`.
pub open spec fn digit_char(d: nat) -> char {
    if d == 0 {
        '0'
    } else if d == 1 {
        '1'
    } else if d == 2 {
        '2'
    } else if d == 3 {
        '3'
    } else if d == 4 {
        '4'
    } else if d == 5 {
        '5'
    } else if d == 6 {
        '6'
    } else if d == 7 {
        '7'
    } else if d == 8 {
        '8'
    } else {
        '9'
    }
}

/// The byte of a digit character is a digit, and stands for the digit.
pub proof fn lemma_digit_char(d: nat)
    requires
        d < 10,
    ensures
        is_digit(digit_char(d) as u8),
        (digit_char(d) as u8 - '0' as u8) as nat == d,
{
}

/// The decimal numeral of `n`, without leading zeros.
pub open spec fn decimal(n: nat) -> Seq<char>
    decreases n,
{
    if n < 10 {
        seq![digit_char(n)]
    } else {
        decimal(n / 10).push(digit_char(n % 10))
    }
}

/// The numeral of `n` in `width` digits, with zeros in front where `n` has
/// fewer.
pub open spec fn padded(n: nat, width: nat) -> Seq<char>
    decreases width,
{
    if width == 0 {
        Seq::empty()
    } else {
        padded(n / 10, (width - 1) as nat).push(digit_char(n % 10))
    }
}

/// The text of one digit.
fn digit_str(d: u8) -> (s: &'static str)
    requires
        d < 10,
    ensures
        s@ == seq![digit_char(d as nat)],
{
    proof {
        reveal_strlit("0");
        reveal_strlit("1");
        reveal_strlit("2");
        reveal_strlit("3");
        reveal_strlit("4");
        reveal_strlit("5");
        reveal_strlit("6");
        reveal_strlit("7");
        reveal_strlit("8");
        reveal_strlit("9");
    }
    let s = if d == 0 {
        "0"
    } else if d == 1 {
        "1"
    } else if d == 2 {
        "2"
    } else if d == 3 {
        "3"
    } else if d == 4 {
        "4"
    } else if d == 5 {
        "5"
    } else if d == 6 {
        "6"
    } else if d == 7 {
        "7"
    } else if d == 8 {
        "8"
    } else {
        "9"
    };
    assert(s@ =~= seq![digit_char(d as nat)]);
    s
}

/// Appends the decimal numeral of `n` to `out`.
pub fn append_decimal(out: &mut String, n: u128)
    ensures
        final(out)@ == old(out)@ + decimal(n as nat),
    decreases n,
{
    if n >= 10 {
        append_decimal(out, n / 10);
    }
    out.append(digit_str((n % 10) as u8));
    assert(out@ =~= old(out)@ + decimal(n as nat));
}

/// Appends the numeral of `n` in `width` digits to `out`.
pub fn append_padded(out: &mut String, n: u64, width: u8)
    ensures
        final(out)@ == old(out)@ + padded(n as nat, width as nat),
    decreases width,
{
    if width > 0 {
        append_padded(out, n / 10, width - 1);
        out.append(digit_str((n % 10) as u8));
    }
    assert(out@ =~= old(out)@ + padded(n as nat, width as nat));
}

/// A decimal numeral is made of digits and writes its number.
pub proof fn lemma_decimal_reads_back(n: nat)
    ensures
        ascii(decimal(n)).len() >= 1,
        all_digits(ascii(decimal(n))),
        digits_value(ascii(decimal(n))) == n,
    decreases n,
{
    let text = ascii(decimal(n));
    if n < 10 {
        lemma_digit_char(n);
        assert(text.drop_last() =~= Seq::<u8>::empty());
        assert(digits_value(text.drop_last()) == 0);
    } else {
        lemma_decimal_reads_back(n / 10);
        lemma_digit_char(n % 10);
        let front = ascii(decimal(n / 10));
        assert(text =~= front.push(digit_char(n % 10) as u8));
        assert(text.drop_last() =~= front);
        assert forall|i: int| 0 <= i < text.len() implies is_digit(#[trigger] text[i]) by {
            if i < front.len() {
                assert(text[i] == front[i]);
            }
        }
    }
}

/// A numeral of a given width is made of that many digits and writes its
/// number.
pub proof fn lemma_padded_reads_back(n: nat, width: nat)
    requires
        n < pow10(width),
    ensures
        ascii(padded(n, width)).len() == width,
        all_digits(ascii(padded(n, width))),
        digits_value(ascii(padded(n, width))) == n,
    decreases width,
{
    let text = ascii(padded(n, width));
    if width > 0 {
        lemma_padded_reads_back(n / 10, (width - 1) as nat);
        lemma_digit_char(n % 10);
        let front = ascii(padded(n / 10, (width - 1) as nat));
        assert(text =~= front.push(digit_char(n % 10) as u8));
        assert(text.drop_last() =~= front);
        assert forall|i: int| 0 <= i < text.len() implies is_digit(#[trigger] text[i]) by {
            if i < front.len() {
                assert(text[i] == front[i]);
            }
        }
    }
}

/// A decimal numeral is a text of ASCII characters.
pub proof fn lemma_decimal_is_ascii(n: nat)
    ensures
        is_ascii_chars(decimal(n)),
    decreases n,
{
    if n >= 10 {
        lemma_decimal_is_ascii(n / 10);
    }
}

} // verus!
