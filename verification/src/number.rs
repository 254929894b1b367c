//! Decimal numbers as text.
use vstd::prelude::*;
use vstd::slice::slice_subrange;

use crate::text;
use crate::text::{char_is_digit, code_point, push_repeated};

verus! {

/// The character of a digit from 0 to 9.
pub open spec fn digit_char(d: int) -> char {
    (48 + d) as char
}

/// The number in base ten, without leading zeros.
pub open spec fn decimal(n: nat) -> Seq<char>
    decreases n,
{
    if n < 10 {
        seq![digit_char(n as int)]
    } else {
        decimal(n / 10).push(digit_char((n % 10) as int))
    }
}

/// The number in base ten, with zeros in front up to `width` characters.
pub open spec fn zero_padded(n: nat, width: nat) -> Seq<char> {
    let digits = decimal(n);
    if digits.len() < width {
        text::repeated('0', (width - digits.len()) as nat) + digits
    } else {
        digits
    }
}

/// The number that a row of digits stands for.
pub open spec fn digits_value(s: Seq<char>) -> nat
    decreases s.len(),
{
    if s.len() == 0 {
        0
    } else {
        digits_value(s.drop_last()) * 10 + (s.last() as int - 48) as nat
    }
}

pub open spec fn all_digits(s: Seq<char>) -> bool {
    forall|i: int| 0 <= i < s.len() ==> text::is_digit(#[trigger] s[i])
}

/// An unsigned number as text: digits, with an optional `+` in front, up to `max`.
pub open spec fn parse_unsigned(s: Seq<char>, max: nat) -> Option<nat> {
    let digits = if s.len() > 0 && s[0] == '+' {
        s.drop_first()
    } else {
        s
    };
    if digits.len() > 0 && all_digits(digits) && digits_value(digits) <= max {
        Some(digits_value(digits))
    } else {
        None
    }
}

pub fn decimal_chars(n: u128) -> (r: Vec<char>)
    ensures
        r@ == decimal(n as nat),
    decreases n,
{
    let digit: u8 = 48 + (n % 10) as u8;
    if n < 10 {
        let mut out: Vec<char> = Vec::new();
        out.push(digit as char);
        assert(out@ =~= seq![digit_char(n as int)]);
        out
    } else {
        let mut out = decimal_chars(n / 10);
        out.push(digit as char);
        out
    }
}

/// The number in base ten.
pub fn decimal_text(n: u128) -> (r: String)
    ensures
        r@ == decimal(n as nat),
{
    let chars = decimal_chars(n);
    text::to_text(chars.as_slice())
}

/// The number in base ten, with zeros in front up to `width` characters.
pub fn zero_padded_text(n: u128, width: usize) -> (r: String)
    ensures
        r@ == zero_padded(n as nat, width as nat),
{
    let digits = decimal_chars(n);
    let count: usize = digits.len();
    let mut out = String::new();
    if count < width {
        push_repeated(&mut out, '0', width - count);
    }
    out.append(text::to_text(digits.as_slice()).as_str());
    assert(out@ =~= zero_padded(n as nat, width as nat));
    out
}

proof fn lemma_digits_value_grows(s: Seq<char>, n: int)
    requires
        0 <= n <= s.len(),
    ensures
        digits_value(s.take(n)) <= digits_value(s),
    decreases s.len() - n,
{
    if n < s.len() {
        lemma_digits_value_grows(s.drop_last(), n);
        assert(s.drop_last().take(n) =~= s.take(n));
    } else {
        assert(s.take(n) =~= s);
    }
}

pub fn unsigned_value(s: &[char], max: u64) -> (r: Option<u64>)
    ensures
        match r {
            Some(n) => parse_unsigned(s@, max as nat) == Some(n as nat),
            None => parse_unsigned(s@, max as nat) is None,
        },
{
    let digits = if s.len() > 0 && s[0] == '+' {
        slice_subrange(s, 1, s.len())
    } else {
        s
    };
    if digits.len() == 0 {
        return None;
    }
    let mut value: u64 = 0;
    let mut i: usize = 0;
    while i < digits.len()
        invariant
            i <= digits@.len(),
            digits@.len() > 0,
            digits@ == (if s@.len() > 0 && s@[0] == '+' {
                s@.drop_first()
            } else {
                s@
            }),
            all_digits(digits@.take(i as int)),
            value <= max,
            value == digits_value(digits@.take(i as int)),
        decreases digits@.len() - i,
    {
        if !char_is_digit(digits[i]) {
            return None;
        }
        let d: u64 = (code_point(digits[i]) - 48) as u64;
        let next: u128 = value as u128 * 10 + d as u128;
        proof {
            let longer = digits@.take(i + 1);
            assert(longer.drop_last() =~= digits@.take(i as int));
            assert(longer.last() == digits@[i as int]);
            assert(next == digits_value(longer));
            assert(all_digits(longer)) by {
                assert forall|j: int| 0 <= j < longer.len() implies text::is_digit(
                    #[trigger] longer[j],
                ) by {
                    if j < i {
                        assert(longer[j] == digits@.take(i as int)[j]);
                    }
                }
            }
            lemma_digits_value_grows(digits@, i + 1);
        }
        if next > max as u128 {
            return None;
        }
        value = next as u64;
        i += 1;
    }
    assert(digits@.take(i as int) =~= digits@);
    Some(value)
}

// ---------------------------------------------------------------------------
// Reading back
// ---------------------------------------------------------------------------

/// A number written in base ten reads back as itself, whatever bound it meets.
pub proof fn lemma_decimal_reads_back(n: nat, max: nat)
    requires
        n <= max,
    ensures
        parse_unsigned(decimal(n), max) == Some(n),
{
    lemma_decimal(n);
    assert(text::is_digit(decimal(n)[0]));
}

/// A number in base ten is a nonempty row of digits.
pub proof fn lemma_decimal(n: nat)
    ensures
        decimal(n).len() > 0,
        all_digits(decimal(n)),
        digits_value(decimal(n)) == n,
    decreases n,
{
    if n < 10 {
        assert(digits_value(decimal(n).drop_last()) == 0);
    } else {
        lemma_decimal(n / 10);
        assert(decimal(n).drop_last() =~= decimal(n / 10));
        assert forall|j: int| 0 <= j < decimal(n).len() implies text::is_digit(
            #[trigger] decimal(n)[j],
        ) by {
            if j < decimal(n / 10).len() {
                assert(decimal(n)[j] == decimal(n / 10)[j]);
            }
        }
    }
}

// ---------------------------------------------------------------------------
// The order of numbers as texts
// ---------------------------------------------------------------------------

pub open spec fn power_of_ten(k: nat) -> nat
    decreases k,
{
    if k == 0 {
        1
    } else {
        10 * power_of_ten((k - 1) as nat)
    }
}

proof fn lemma_decimal_length(n: nat, k: nat)
    requires
        k > 0,
        n < power_of_ten(k),
    ensures
        decimal(n).len() <= k,
    decreases n,
{
    if n >= 10 {
        assert(k > 1) by {
            reveal_with_fuel(power_of_ten, 2);
        }
        lemma_decimal_length(n / 10, (k - 1) as nat);
    }
}

proof fn lemma_leading_zeros(zeros: nat, digits: Seq<char>)
    requires
        all_digits(digits),
    ensures
        all_digits(text::repeated('0', zeros) + digits),
        digits_value(text::repeated('0', zeros) + digits) == digits_value(digits),
    decreases zeros + digits.len(),
{
    let front = text::repeated('0', zeros);
    let all = front + digits;
    if digits.len() > 0 {
        let fewer = digits.drop_last();
        assert forall|j: int| 0 <= j < fewer.len() implies text::is_digit(#[trigger] fewer[j]) by {
            assert(fewer[j] == digits[j]);
        }
        lemma_leading_zeros(zeros, fewer);
        assert(all.drop_last() =~= front + fewer);
        assert forall|j: int| 0 <= j < all.len() implies text::is_digit(#[trigger] all[j]) by {
            if j < zeros {
                assert(all[j] == '0');
            } else {
                assert(all[j] == digits[j - zeros]);
            }
        }
    } else if zeros > 0 {
        lemma_leading_zeros((zeros - 1) as nat, digits);
        assert(all.drop_last() =~= text::repeated('0', (zeros - 1) as nat) + digits);
        assert(all.last() == '0');
    } else {
        assert(all =~= digits);
    }
}

proof fn lemma_same_digits(a: Seq<char>, b: Seq<char>)
    requires
        all_digits(a),
        all_digits(b),
        a.len() == b.len(),
        digits_value(a) == digits_value(b),
    ensures
        a == b,
    decreases a.len(),
{
    if a.len() > 0 {
        let x = a.drop_last();
        let y = b.drop_last();
        assert forall|j: int| 0 <= j < x.len() implies text::is_digit(#[trigger] x[j]) by {
            assert(x[j] == a[j]);
        }
        assert forall|j: int| 0 <= j < y.len() implies text::is_digit(#[trigger] y[j]) by {
            assert(y[j] == b[j]);
        }
        assert(text::is_digit(a[a.len() - 1]) && text::is_digit(b[b.len() - 1]));
        lemma_same_digits(x, y);
        assert(a.last() as int == b.last() as int);
        assert(a =~= x.push(a.last()));
        assert(b =~= y.push(b.last()));
    } else {
        assert(a =~= b);
    }
}

proof fn lemma_before_with_more(a: Seq<char>, b: Seq<char>, x: Seq<char>, y: Seq<char>)
    requires
        a.len() == b.len(),
        text::before(a, b),
    ensures
        text::before(a + x, b + y),
    decreases a.len(),
{
    if a[0] == b[0] {
        lemma_before_with_more(a.drop_first(), b.drop_first(), x, y);
        assert((a + x).drop_first() =~= a.drop_first() + x);
        assert((b + y).drop_first() =~= b.drop_first() + y);
    }
}

proof fn lemma_before_after_same(a: Seq<char>, x: char, y: char)
    requires
        (x as int) < (y as int),
    ensures
        text::before(a.push(x), a.push(y)),
    decreases a.len(),
{
    if a.len() > 0 {
        lemma_before_after_same(a.drop_first(), x, y);
        assert(a.push(x).drop_first() =~= a.drop_first().push(x));
        assert(a.push(y).drop_first() =~= a.drop_first().push(y));
    }
}

proof fn lemma_smaller_is_before(a: Seq<char>, b: Seq<char>)
    requires
        all_digits(a),
        all_digits(b),
        a.len() == b.len(),
        digits_value(a) < digits_value(b),
    ensures
        text::before(a, b),
    decreases a.len(),
{
    if a.len() > 0 {
        let x = a.drop_last();
        let y = b.drop_last();
        assert forall|j: int| 0 <= j < x.len() implies text::is_digit(#[trigger] x[j]) by {
            assert(x[j] == a[j]);
        }
        assert forall|j: int| 0 <= j < y.len() implies text::is_digit(#[trigger] y[j]) by {
            assert(y[j] == b[j]);
        }
        assert(text::is_digit(a[a.len() - 1]) && text::is_digit(b[b.len() - 1]));
        assert(a =~= x + seq![a.last()]);
        assert(b =~= y + seq![b.last()]);
        if digits_value(x) < digits_value(y) {
            lemma_smaller_is_before(x, y);
            lemma_before_with_more(x, y, seq![a.last()], seq![b.last()]);
        } else {
            assert(digits_value(x) == digits_value(y));
            lemma_same_digits(x, y);
            lemma_before_after_same(x, a.last(), b.last());
            assert(a =~= x.push(a.last()));
            assert(b =~= x.push(b.last()));
        }
    }
}

/// Numbers that fit the width are, with zeros in front, in the same order as texts as they
/// are as numbers, whatever follows them.
pub proof fn lemma_padded_order(a: nat, b: nat, width: nat, x: Seq<char>, y: Seq<char>)
    requires
        a < b,
        b < power_of_ten(width),
        width > 0,
    ensures
        text::before(zero_padded(a, width) + x, zero_padded(b, width) + y),
{
    lemma_decimal(a);
    lemma_decimal(b);
    lemma_decimal_length(a, width);
    lemma_decimal_length(b, width);
    lemma_leading_zeros((width - decimal(a).len()) as nat, decimal(a));
    lemma_leading_zeros((width - decimal(b).len()) as nat, decimal(b));
    let zero_a = text::repeated('0', (width - decimal(a).len()) as nat) + decimal(a);
    let zero_b = text::repeated('0', (width - decimal(b).len()) as nat) + decimal(b);
    assert(zero_a =~= zero_padded(a, width));
    assert(zero_b =~= zero_padded(b, width));
    lemma_smaller_is_before(zero_a, zero_b);
    lemma_before_with_more(zero_a, zero_b, x, y);
}

/// Each further digit makes a number ten times as large and adds its own value; the digits are
/// worth zero to nine.
pub proof fn lemma_digits_count_in_tens(front: Seq<char>, digit: char)
    requires
        '0' <= digit <= '9',
    ensures
        digits_value(front.push(digit)) == 10 * digits_value(front) + (digit as int - '0' as int),
        digits_value(Seq::<char>::empty()) == 0,
{
    assert(front.push(digit).drop_last() =~= front);
}

/// A number has no zeros in front of it.
pub proof fn lemma_no_leading_zero(n: nat)
    requires
        n > 0,
    ensures
        decimal(n)[0] != '0',
    decreases n,
{
    if n >= 10 {
        lemma_no_leading_zero(n / 10);
        lemma_decimal(n / 10);
    }
}

/// Zeros in front fill a number up to the width and do not change its value; a number that is
/// wider than that is left as it is.
pub proof fn lemma_zero_padded(n: nat, width: nat)
    ensures
        all_digits(zero_padded(n, width)),
        digits_value(zero_padded(n, width)) == n,
        decimal(n).len() <= width ==> zero_padded(n, width).len() == width,
        decimal(n).len() > width ==> zero_padded(n, width) == decimal(n),
{
    lemma_decimal(n);
    let digits = decimal(n);
    if digits.len() < width {
        lemma_leading_zeros((width - digits.len()) as nat, digits);
    }
}

/// A text is read as a number if and only if it is one or more digits, perhaps with a `+` in
/// front, and the number is within the bound.
pub proof fn lemma_reads_numbers_only(digits: Seq<char>, max: nat)
    requires
        digits.len() > 0 ==> digits[0] != '+',
    ensures
        parse_unsigned(digits, max) is Some == (digits.len() > 0 && (forall|i: int|
            0 <= i < digits.len() ==> '0' <= #[trigger] digits[i] <= '9') && digits_value(digits)
            <= max),
        parse_unsigned(digits, max) matches Some(n) ==> n == digits_value(digits),
        parse_unsigned(seq!['+'] + digits, max) == parse_unsigned(digits, max),
{
    assert((seq!['+'] + digits).drop_first() =~= digits);
    if forall|i: int| 0 <= i < digits.len() ==> '0' <= #[trigger] digits[i] <= '9' {
        assert(all_digits(digits));
    }
    if all_digits(digits) {
        assert forall|i: int| 0 <= i < digits.len() implies '0' <= #[trigger] digits[i] <= '9' by {
            assert(text::is_digit(digits[i]));
        }
    }
}

} // verus!
