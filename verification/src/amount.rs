//! Donation amounts as fixed-point integers: the decimal text of an
//! amount is parsed into hundredths (cents), so aggregation is exact.
//!
//! The accepted grammar is an optional sign, then decimal digits with at
//! most one point: at most `MAX_INT_DIGITS` integer digits, at most
//! `MAX_FRAC_DIGITS` fraction digits, and at least one digit in all.
//! Any other text is no amount at all; such a donation line is skipped.

use vstd::prelude::*;

use crate::bytes::find_byte;
use crate::bytes::lemma_find_byte;
use crate::bytes::lemma_find_byte_is;

verus! {

/// The decimal point.
pub const DOT: u8 = 46;

/// A plus sign, accepted before an amount.
pub const PLUS: u8 = 43;

/// A minus sign, accepted before an amount.
pub const MINUS: u8 = 45;

/// Every parsed amount lies strictly between `-AMOUNT_LIMIT` and
/// `AMOUNT_LIMIT` hundredths.
pub const AMOUNT_LIMIT: i64 = 100_000_000_000_000_000;

/// How many hundredths one whole unit of an amount holds.
pub const AMOUNT_SCALE: i64 = 100;

/// The most integer digits an amount may have.
pub const MAX_INT_DIGITS: usize = 15;

/// The most fraction digits an amount may have.
pub const MAX_FRAC_DIGITS: usize = 2;

/// True of an ASCII decimal digit.
pub open spec fn is_digit(b: u8) -> bool {
    48 <= b && b <= 57
}

/// The value of one ASCII decimal digit.
pub open spec fn digit_val(b: u8) -> int {
    b - 48
}

/// True when every byte of `s` is a decimal digit.
pub open spec fn all_digits(s: Seq<u8>) -> bool {
    forall|i: int| 0 <= i < s.len() ==> is_digit(s[i])
}

/// The value of a digit string read as a decimal number.
pub open spec fn digits_val(s: Seq<u8>) -> int
    decreases s.len(),
{
    if s.len() == 0 {
        0
    } else {
        digits_val(s.drop_last()) * 10 + digit_val(s.last())
    }
}

/// Ten to the `n`th power.
pub open spec fn pow10(n: nat) -> int
    decreases n,
{
    if n == 0 {
        1
    } else {
        10 * pow10((n - 1) as nat)
    }
}

pub proof fn lemma_pow10_pos(n: nat)
    ensures
        pow10(n) >= 1,
    decreases n,
{
    if n > 0 {
        lemma_pow10_pos((n - 1) as nat);
    }
}

pub proof fn lemma_pow10_mono(a: nat, b: nat)
    requires
        a <= b,
    ensures
        1 <= pow10(a) <= pow10(b),
    decreases b,
{
    lemma_pow10_pos(a);
    if a < b {
        lemma_pow10_mono(a, (b - 1) as nat);
    }
}

/// A string of `n` digits is a value below ten to the `n`th.
pub proof fn lemma_digits_val_bound(s: Seq<u8>)
    requires
        all_digits(s),
    ensures
        0 <= digits_val(s) < pow10(s.len()),
    decreases s.len(),
{
    if s.len() > 0 {
        assert(all_digits(s.drop_last()));
        lemma_digits_val_bound(s.drop_last());
    }
}

/// The value in hundredths of an amount's fraction digits (at most two).
pub open spec fn frac_val(s: Seq<u8>) -> int {
    if s.len() == 0 {
        0
    } else if s.len() == 1 {
        digit_val(s[0]) * 10
    } else {
        digit_val(s[0]) * 10 + digit_val(s[1])
    }
}

/// `s` without its sign byte, if it carries one.
pub open spec fn amount_body(s: Seq<u8>) -> Seq<u8> {
    if s.len() > 0 && (s[0] == PLUS || s[0] == MINUS) {
        s.drop_first()
    } else {
        s
    }
}

/// True when `s` carries a minus sign.
pub open spec fn is_negative(s: Seq<u8>) -> bool {
    s.len() > 0 && s[0] == MINUS
}

/// The digits before the decimal point of an unsigned amount body.
pub open spec fn int_part(body: Seq<u8>) -> Seq<u8> {
    let k = find_byte(body, DOT);
    if k >= body.len() {
        body
    } else {
        body.take(k as int)
    }
}

/// What follows the decimal point of an unsigned amount body.
pub open spec fn frac_part(body: Seq<u8>) -> Seq<u8> {
    let k = find_byte(body, DOT);
    if k >= body.len() {
        Seq::empty()
    } else {
        body.skip(k as int + 1)
    }
}

/// The amount that the text `s` denotes, in hundredths, or `None` when
/// `s` is not a well-formed amount.
pub open spec fn amount_of(s: Seq<u8>) -> Option<int> {
    let body = amount_body(s);
    let ip = int_part(body);
    let fp = frac_part(body);
    if all_digits(ip) && all_digits(fp) && ip.len() <= MAX_INT_DIGITS as int && fp.len()
        <= MAX_FRAC_DIGITS as int && ip.len() + fp.len() >= 1 {
        let mag = digits_val(ip) * (AMOUNT_SCALE as int) + frac_val(fp);
        Some(
            if is_negative(s) {
                -mag
            } else {
                mag
            },
        )
    } else {
        None
    }
}

/// Every amount that parses lies strictly within `AMOUNT_LIMIT`.
pub proof fn lemma_amount_of_bound(s: Seq<u8>)
    ensures
        amount_of(s) matches Some(v) ==> -(AMOUNT_LIMIT as int) < v < AMOUNT_LIMIT as int,
{
    if amount_of(s) is Some {
        let body = amount_body(s);
        let ip = int_part(body);
        let fp = frac_part(body);
        lemma_digits_val_bound(ip);
        lemma_pow10_mono(ip.len(), MAX_INT_DIGITS as nat);
        assert(pow10(MAX_INT_DIGITS as nat) == 1_000_000_000_000_000) by {
            reveal_with_fuel(pow10, 16);
        }
    }
}

/// In `s`, the bytes of `s[bs..end]` are all digits, so the suffix
/// `s[bs..]` holds no decimal point before index `end - bs`.
proof fn lemma_no_dot_prefix(s: Seq<u8>, bs: int, end: int)
    requires
        0 <= bs <= end <= s.len(),
        all_digits(s.subrange(bs, end)),
    ensures
        forall|j: int| 0 <= j < end - bs ==> s.skip(bs)[j] != DOT,
{
    assert forall|j: int| 0 <= j < end - bs implies s.skip(bs)[j] != DOT by {
        assert(is_digit(s.subrange(bs, end)[j]));
        assert(s.skip(bs)[j] == s[bs + j]);
    }
}

/// Parses the text of an amount into hundredths; `None` when the text is
/// not a well-formed amount.
#[verifier::rlimit(50)]
pub fn parse_amount(field: &Vec<u8>) -> (r: Option<i64>)
    ensures
        match r {
            Some(v) => amount_of(field@) == Some(v as int),
            None => amount_of(field@) is None,
        },
{
    let n = field.len();
    let mut i: usize = 0;
    let negative = n > 0 && field[0] == MINUS;
    if n > 0 && (field[0] == PLUS || field[0] == MINUS) {
        i = 1;
    }
    let body_start = i;
    let ghost body = field@.skip(body_start as int);
    proof {
        assert(negative == is_negative(field@));
        assert(body =~= amount_body(field@));
        assert(forall|j: int| 0 <= j < body.len() ==> body[j] == field@[body_start + j]);
    }

    let mut ival: i64 = 0;
    let mut int_digits: usize = 0;
    while i < n && 48 <= field[i] && field[i] <= 57
        invariant
            body_start <= i <= n,
            n == field.len(),
            body == field@.skip(body_start as int),
            body == amount_body(field@),
            i - body_start == int_digits,
            int_digits <= MAX_INT_DIGITS,
            all_digits(field@.subrange(body_start as int, i as int)),
            ival == digits_val(field@.subrange(body_start as int, i as int)),
            0 <= ival < pow10(int_digits as nat),
        decreases n - i,
    {
        if int_digits == MAX_INT_DIGITS {
            // a sixteenth integer digit: the integer part is too long
            proof {
                lemma_find_byte(body, DOT);
                lemma_no_dot_prefix(field@, body_start as int, i as int);
                let k = find_byte(body, DOT) as int;
                if k < i + 1 - body_start {
                    assert(body[k] == field@[body_start + k]);
                    assert(is_digit(body[k]));
                    assert(false);
                }
                assert(int_part(body).len() > MAX_INT_DIGITS as int);
            }
            return None;
        }
        let d = field[i] - 48;
        proof {
            lemma_pow10_mono(int_digits as nat, (MAX_INT_DIGITS - 1) as nat);
            assert(pow10((MAX_INT_DIGITS - 1) as nat) == 100_000_000_000_000) by {
                reveal_with_fuel(pow10, 15);
            }
            assert(field@.subrange(body_start as int, i + 1) =~= field@.subrange(
                body_start as int,
                i as int,
            ).push(field@[i as int]));
            assert(field@.subrange(body_start as int, i + 1).drop_last() =~= field@.subrange(
                body_start as int,
                i as int,
            ));
        }
        ival = ival * 10 + d as i64;
        int_digits += 1;
        i += 1;
    }
    let ghost int_end = i as int;

    let has_dot = i < n && field[i] == DOT;
    let mut fval: i64 = 0;
    let mut frac_digits: usize = 0;
    if has_dot {
        i += 1;
        while i < n && 48 <= field[i] && field[i] <= 57
            invariant
                body_start as int <= int_end,
                int_end + 1 <= i <= n,
                n == field.len(),
                body == field@.skip(body_start as int),
                body == amount_body(field@),
                field@[int_end] == DOT,
                int_end - body_start == int_digits,
                all_digits(field@.subrange(body_start as int, int_end)),
                i - int_end - 1 == frac_digits,
                frac_digits <= MAX_FRAC_DIGITS,
                all_digits(field@.subrange(int_end + 1, i as int)),
                fval == frac_val(field@.subrange(int_end + 1, i as int)),
                0 <= fval <= 99,
            decreases n - i,
        {
            if frac_digits == MAX_FRAC_DIGITS {
                // a third fraction digit: the fraction is too long
                proof {
                    lemma_no_dot_prefix(field@, body_start as int, int_end);
                    assert(body[int_end - body_start] == field@[int_end]);
                    lemma_find_byte_is(body, DOT, int_end - body_start);
                    assert(frac_part(body).len() > MAX_FRAC_DIGITS as int);
                }
                return None;
            }
            let d = field[i] - 48;
            proof {
                assert(field@.subrange(int_end + 1, i + 1) =~= field@.subrange(
                    int_end + 1,
                    i as int,
                ).push(field@[i as int]));
            }
            if frac_digits == 0 {
                fval = (d as i64) * 10;
            } else {
                fval = fval + d as i64;
            }
            frac_digits += 1;
            i += 1;
        }
    }

    if i < n {
        // a byte that belongs to no part of an amount
        proof {
            lemma_find_byte(body, DOT);
            let k = find_byte(body, DOT) as int;
            if has_dot {
                lemma_no_dot_prefix(field@, body_start as int, int_end);
                assert(body[int_end - body_start] == field@[int_end]);
                lemma_find_byte_is(body, DOT, int_end - body_start);
                let fp = frac_part(body);
                assert(fp[i - int_end - 1] == field@[i as int]);
                assert(!is_digit(fp[i - int_end - 1]));
            } else {
                assert(int_end == i);
                lemma_no_dot_prefix(field@, body_start as int, i as int);
                if k < i - body_start {
                    assert(body[k] == field@[body_start + k]);
                    assert(false);
                } else if k == i - body_start {
                    assert(body[k] == field@[i as int]);
                    assert(false);
                } else {
                    let ip = int_part(body);
                    assert(body[i - body_start] == field@[i as int]);
                    assert(ip[i - body_start] == field@[i as int]);
                    assert(!is_digit(ip[i - body_start]));
                }
            }
        }
        return None;
    }

    if int_digits == 0 && frac_digits == 0 {
        // no digit at all
        proof {
            if has_dot {
                assert(body[int_end - body_start] == field@[int_end]);
                lemma_find_byte_is(body, DOT, int_end - body_start);
                assert(int_part(body).len() == 0);
                assert(frac_part(body).len() == 0);
            } else {
                assert(body.len() == 0);
                lemma_find_byte(body, DOT);
                assert(int_part(body).len() == 0);
                assert(frac_part(body).len() == 0);
            }
        }
        return None;
    }

    proof {
        lemma_pow10_mono(int_digits as nat, MAX_INT_DIGITS as nat);
        assert(pow10(MAX_INT_DIGITS as nat) == 1_000_000_000_000_000) by {
            reveal_with_fuel(pow10, 16);
        }
        if has_dot {
            lemma_no_dot_prefix(field@, body_start as int, int_end);
            assert(body[int_end - body_start] == field@[int_end]);
            lemma_find_byte_is(body, DOT, int_end - body_start);
            assert(int_part(body) =~= field@.subrange(body_start as int, int_end));
            assert(frac_part(body) =~= field@.subrange(int_end + 1, n as int));
        } else {
            assert(int_end == i);
            lemma_no_dot_prefix(field@, body_start as int, i as int);
            lemma_find_byte_is(body, DOT, body.len() as int);
            assert(int_part(body) =~= field@.subrange(body_start as int, int_end));
            assert(frac_part(body) =~= Seq::<u8>::empty());
        }
    }
    let mag: i64 = ival * 100 + fval;
    let v: i64 = if negative {
        -mag
    } else {
        mag
    };
    Some(v)
}

} // verus!
