//! Amounts as decimal text: digits, and up to four places behind a point.

use crate::digits::{
    all_digits, append_decimal, append_padded, decimal, digit_run, digits_to_number,
    digits_value, is_digit, lemma_all_digits_is_full_run, lemma_decimal_is_ascii,
    lemma_decimal_reads_back, lemma_digit_run, lemma_digit_run_of_digits,
    lemma_digits_value_bound, lemma_padded_reads_back, padded, pow10, scan_digits, unsigned_part,
};
use crate::text::ascii;
use vstd::prelude::*;
use vstd::string::StringExecFns;
use vstd::utf8::is_ascii_chars;

verus! {

/// Every byte of `s` is the digit zero.
pub open spec fn all_zeros(s: Seq<u8>) -> bool {
    forall|i: int| 0 <= i < s.len() ==> #[trigger] s[i] == '0' as u8
}

/// The digits before the point of an amount.
pub open spec fn whole_part(text: Seq<u8>) -> Seq<u8> {
    unsigned_part(text).take(digit_run(unsigned_part(text)) as int)
}

/// What follows the digits before the point of an amount, without the
/// point.
pub open spec fn fraction_part(text: Seq<u8>) -> Seq<u8> {
    let after = unsigned_part(text).skip(digit_run(unsigned_part(text)) as int);
    if after.len() > 0 && after[0] == '.' as u8 {
        after.skip(1)
    } else {
        after
    }
}

/// The ten-thousandths that the digits behind the point write: the first
/// four places count, and further places must be zeros.
pub open spec fn fraction_units(fraction: Seq<u8>) -> Option<nat> {
    let kept = if fraction.len() <= 4 {
        fraction
    } else {
        fraction.take(4)
    };
    if !all_digits(fraction) {
        None
    } else if fraction.len() > 4 && !all_zeros(fraction.skip(4)) {
        None
    } else {
        Some(digits_value(kept) * pow10((4 - kept.len()) as nat))
    }
}

/// The amount that `text` writes, in ten-thousandths.
///
/// The text is an optional sign, digits, and optionally a point and more
/// digits, with a digit on at least one side of the point and nothing
/// else. Beyond the fourth place behind the point only zeros are taken.
/// There is no amount where the text is of another form or writes a number
/// of ten-thousandths beyond the range of an `i64`.
pub open spec fn amount_units(text: Seq<u8>) -> Option<i64> {
    let whole = whole_part(text);
    let fraction = fraction_part(text);
    if whole.len() + fraction.len() == 0 {
        None
    } else {
        match fraction_units(fraction) {
            None => None,
            Some(f) => {
                let magnitude = digits_value(whole) * 10000 + f;
                let units = if text[0] == '-' as u8 {
                    -magnitude
                } else {
                    magnitude as int
                };
                if units < i64::MIN || units > i64::MAX {
                    None
                } else {
                    Some(units as i64)
                }
            },
        }
    }
}

/// Where the parts of an amount lie in `s`: the digits before the point
/// from `parts.0` to `parts.1`, and what follows the point from `parts.2`.
fn amount_parts(s: &[u8]) -> (parts: (usize, usize, usize))
    ensures
        parts.0 <= parts.1 <= parts.2 <= s.len(),
        whole_part(s@) == s@.subrange(parts.0 as int, parts.1 as int),
        fraction_part(s@) == s@.skip(parts.2 as int),
        all_digits(whole_part(s@)),
{
    let n = s.len();
    let start: usize = if n > 0 && (s[0] == '+' as u8 || s[0] == '-' as u8) {
        1
    } else {
        0
    };
    let w_end = scan_digits(s, start);
    let f_start: usize = if w_end < n && s[w_end] == '.' as u8 {
        w_end + 1
    } else {
        w_end
    };
    proof {
        let body = s@.skip(start as int);
        assert(s@.skip(0) =~= s@);
        assert(body == unsigned_part(s@));
        assert(body.take(digit_run(body) as int) =~= s@.subrange(start as int, w_end as int));
        assert(body.skip(digit_run(body) as int) =~= s@.skip(w_end as int));
        if w_end < n {
            assert(s@.skip(w_end as int).skip(1) =~= s@.skip(w_end + 1));
        }
        lemma_digit_run(body);
    }
    (start, w_end, f_start)
}

/// Reads the ten-thousandths that `s` writes from `from` on, as the digits
/// behind the point of an amount.
fn read_fraction(s: &[u8], from: usize) -> (units: Option<u64>)
    requires
        from <= s.len(),
    ensures
        match units {
            Some(f) => fraction_units(s@.skip(from as int)) == Some(f as nat) && f <= 9_999,
            None => fraction_units(s@.skip(from as int)) is None,
        },
{
    let n = s.len();
    let ghost fraction = s@.skip(from as int);
    proof {
        lemma_all_digits_is_full_run(fraction);
    }
    if scan_digits(s, from) != n {
        return None;
    }
    let kept_end: usize = if n - from <= 4 {
        n
    } else {
        from + 4
    };
    let ghost kept = s@.subrange(from as int, kept_end as int);
    let mut zeros = true;
    let mut j: usize = kept_end;
    while j < n
        invariant
            from <= kept_end <= j <= n,
            n == s.len(),
            zeros == (forall|i: int| kept_end <= i < j ==> s@[i] == '0' as u8),
        decreases n - j,
    {
        if s[j] != '0' as u8 {
            zeros = false;
        }
        j += 1;
    }
    proof {
        assert(kept =~= if fraction.len() <= 4 {
            fraction
        } else {
            fraction.take(4)
        });
        assert forall|i: int| 0 <= i < kept.len() implies is_digit(#[trigger] kept[i]) by {
            assert(kept[i] == fraction[i]);
        }
        if fraction.len() > 4 {
            let tail = fraction.skip(4);
            if zeros {
                assert forall|i: int| 0 <= i < tail.len() implies #[trigger] tail[i] == '0' as u8 by {
                    assert(tail[i] == s@[kept_end + i]);
                }
            } else {
                let i = choose|i: int| kept_end <= i < n && s@[i] != '0' as u8;
                assert(tail[i - kept_end] == s@[i]);
            }
        }
        lemma_digits_value_bound(kept);
        reveal_with_fuel(pow10, 5);
    }
    if !zeros {
        return None;
    }
    let number = match digits_to_number(s, from, kept_end, 9_999) {
        Some(f) => f,
        None => {
            return None;
        },
    };
    let places = kept_end - from;
    let scaled: u64 = if places == 0 {
        0
    } else if places == 1 {
        number * 1_000
    } else if places == 2 {
        number * 100
    } else if places == 3 {
        number * 10
    } else {
        number
    };
    assert(scaled == digits_value(kept) * pow10((4 - kept.len()) as nat) && scaled <= 9_999)
        by (nonlinear_arith)
        requires
            number == digits_value(kept),
            digits_value(kept) < pow10(kept.len()),
            places == kept.len(),
            places <= 4,
            places == 0 ==> scaled == 0 && pow10(0) == 1 && pow10(4) == 10_000,
            places == 1 ==> scaled == number * 1_000 && pow10(1) == 10 && pow10(3) == 1_000,
            places == 2 ==> scaled == number * 100 && pow10(2) == 100,
            places == 3 ==> scaled == number * 10 && pow10(3) == 1_000 && pow10(1) == 10,
            places == 4 ==> scaled == number && pow10(4) == 10_000 && pow10(0) == 1,
    ;
    Some(scaled)
}

/// Reads an amount, in ten-thousandths, from its decimal text.
pub fn parse_units(s: &[u8]) -> (units: Option<i64>)
    ensures
        units == amount_units(s@),
{
    let (start, w_end, f_start) = amount_parts(s);
    if w_end - start + (s.len() - f_start) == 0 {
        return None;
    }
    let fraction = match read_fraction(s, f_start) {
        Some(f) => f,
        None => {
            return None;
        },
    };
    let whole = match digits_to_number(s, start, w_end, 1_000_000_000_000_000) {
        Some(w) => w,
        None => {
            return None;
        },
    };
    let magnitude: i128 = whole as i128 * 10_000 + fraction as i128;
    let units: i128 = if s[0] == '-' as u8 {
        -magnitude
    } else {
        magnitude
    };
    if units < -0x8000_0000_0000_0000i128 || units > 0x7fff_ffff_ffff_ffffi128 {
        return None;
    }
    Some(units as i64)
}

/// The digits behind the point for `n` parts of ten to the power of
/// `width`: the numeral of `n` in `width` digits without the zeros that it
/// ends with.
pub open spec fn fraction_text(n: nat, width: nat) -> Seq<char>
    decreases width,
{
    if width == 0 {
        Seq::empty()
    } else if n % 10 == 0 {
        fraction_text(n / 10, (width - 1) as nat)
    } else {
        padded(n, width)
    }
}

/// The decimal text of an amount of `units` ten-thousandths: a minus sign
/// if it is negative, the whole part, and the fraction behind a point
/// unless it is zero.
pub open spec fn amount_text(units: int) -> Seq<char> {
    let magnitude = if units < 0 {
        -units
    } else {
        units
    };
    let sign = if units < 0 {
        seq!['-']
    } else {
        Seq::empty()
    };
    let fraction = if magnitude % 10_000 == 0 {
        Seq::empty()
    } else {
        seq!['.'] + fraction_text((magnitude % 10_000) as nat, 4)
    };
    sign + decimal((magnitude / 10_000) as nat) + fraction
}

/// Appends the digits behind the point for `n` ten-thousandths to `out`.
fn append_fraction(out: &mut String, units: u64)
    requires
        0 < units < 10_000,
    ensures
        final(out)@ == old(out)@ + fraction_text(units as nat, 4),
{
    let mut n: u64 = units;
    let mut width: u8 = 4;
    while n % 10 == 0
        invariant
            0 < n,
            (width == 4 && n < 10_000) || (width == 3 && n < 1_000) || (width == 2 && n < 100) || (
            width == 1 && n < 10),
            fraction_text(units as nat, 4) == fraction_text(n as nat, width as nat),
            out@ == old(out)@,
        decreases n,
    {
        n = n / 10;
        width = width - 1;
    }
    append_padded(out, n, width);
}

/// Appends the decimal text of an amount of `units` ten-thousandths to
/// `out`.
pub fn append_units(out: &mut String, units: i128)
    ensures
        final(out)@ == old(out)@ + amount_text(units as int),
{
    proof {
        reveal_strlit("-");
        reveal_strlit(".");
    }
    let magnitude: u128 = if units < 0 {
        out.append("-");
        (-(units + 1)) as u128 + 1
    } else {
        units as u128
    };
    let ghost signed = out@;
    assert(signed =~= old(out)@ + (if units < 0 {
        seq!['-']
    } else {
        Seq::empty()
    }));
    append_decimal(out, magnitude / 10_000);
    let ghost whole = out@;
    let n: u64 = (magnitude % 10_000) as u64;
    if n != 0 {
        out.append(".");
        append_fraction(out, n);
        assert(out@ =~= whole + (seq!['.'] + fraction_text(n as nat, 4)));
    } else {
        assert(out@ =~= whole + Seq::<char>::empty());
    }
    assert(out@ =~= old(out)@ + amount_text(units as int));
}

/// The digits behind the point are at least one and at most `width`, and
/// write their number in the places that they take.
pub proof fn lemma_fraction_reads_back(n: nat, width: nat)
    requires
        0 < n < pow10(width),
    ensures
        1 <= ascii(fraction_text(n, width)).len() <= width,
        all_digits(ascii(fraction_text(n, width))),
        digits_value(ascii(fraction_text(n, width))) * pow10(
            (width - ascii(fraction_text(n, width)).len()) as nat,
        ) == n,
    decreases width,
{
    if width > 0 {
        if n % 10 == 0 {
            lemma_fraction_reads_back(n / 10, (width - 1) as nat);
            let text = ascii(fraction_text(n / 10, (width - 1) as nat));
            let rest = (width - 1 - text.len()) as nat;
            assert(pow10(rest + 1) == 10 * pow10(rest));
            assert(digits_value(text) * pow10(rest + 1) == n) by (nonlinear_arith)
                requires
                    digits_value(text) * pow10(rest) == n / 10,
                    pow10(rest + 1) == 10 * pow10(rest),
                    n % 10 == 0,
            ;
            assert(fraction_text(n, width) == fraction_text(n / 10, (width - 1) as nat));
            assert((width - text.len()) as nat == rest + 1);
        } else {
            lemma_padded_reads_back(n, width);
            let text = ascii(padded(n, width));
            assert(fraction_text(n, width) == padded(n, width));
            assert((width - text.len()) as nat == 0);
            assert(pow10(0) == 1);
            assert(digits_value(text) * pow10(0) == n) by (nonlinear_arith)
                requires
                    digits_value(text) == n,
                    pow10(0) == 1,
            ;
        }
    }
}

/// What is written is read back: the text of an amount writes that amount.
pub proof fn lemma_amount_text_reads_back(units: i64)
    ensures
        amount_units(ascii(amount_text(units as int))) == Some(units),
{
    let magnitude: nat = if units < 0 {
        (-units) as nat
    } else {
        units as nat
    };
    let whole = ascii(decimal(magnitude / 10_000));
    let n = magnitude % 10_000;
    let places = if n == 0 {
        Seq::<u8>::empty()
    } else {
        ascii(fraction_text(n, 4))
    };
    let fraction = if n == 0 {
        Seq::<u8>::empty()
    } else {
        seq!['.' as u8] + places
    };
    let sign = if units < 0 {
        seq!['-' as u8]
    } else {
        Seq::<u8>::empty()
    };
    let text = ascii(amount_text(units as int));
    reveal_with_fuel(pow10, 5);
    lemma_decimal_reads_back(magnitude / 10_000);
    if n != 0 {
        lemma_fraction_reads_back(n, 4);
    }
    assert(text =~= sign + whole + fraction);
    let body = whole + fraction;
    assert(unsigned_part(text) =~= body) by {
        if units < 0 {
            assert(text[0] == '-' as u8);
        } else {
            assert(text[0] == whole[0]);
            assert(is_digit(whole[0]));
        }
    }
    lemma_digit_run_of_digits(whole, fraction);
    assert(whole_part(text) =~= whole);
    assert(body.skip(whole.len() as int) =~= fraction);
    assert(fraction_part(text) =~= places) by {
        if n != 0 {
            assert(fraction[0] == '.' as u8);
            assert(fraction.skip(1) =~= places);
        }
    }
    assert(fraction_units(places) == Some(n)) by {
        if n == 0 {
            assert(places.len() == 0);
            assert(all_digits(places));
            assert(digits_value(places) == 0);
            assert(digits_value(places) * pow10(4) == 0) by (nonlinear_arith)
                requires
                    digits_value(places) == 0,
            ;
        } else {
            assert(1 <= places.len() <= 4);
            assert(all_digits(places));
        }
    }
    assert(digits_value(whole) * 10000 + n == magnitude);
}

/// A numeral of a given width is a text of ASCII characters.
pub proof fn lemma_padded_is_ascii(n: nat, width: nat)
    ensures
        is_ascii_chars(padded(n, width)),
        is_ascii_chars(fraction_text(n, width)),
    decreases width,
{
    if width > 0 {
        lemma_padded_is_ascii(n / 10, (width - 1) as nat);
    }
}

/// The text of an amount is a text of ASCII characters.
pub proof fn lemma_amount_text_is_ascii(units: int)
    ensures
        is_ascii_chars(amount_text(units)),
{
    let magnitude = if units < 0 {
        -units
    } else {
        units
    };
    lemma_decimal_is_ascii((magnitude / 10_000) as nat);
    lemma_padded_is_ascii((magnitude % 10_000) as nat, 4);
}

} // verus!
