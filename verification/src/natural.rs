//! Numbers written in digits, of any length: the decimal digits of a number
//! in hexadecimal, and the sign of the difference of two exponents.

use crate::order::{digits_of, hex_digit, hex_value, is_digit, is_hex, number_value};
use vstd::prelude::*;

verus! {

/// The number that digits write which stand with the lowest first, before a
/// number `high` that stands above them all.
pub open spec fn low_value(low: Seq<u8>, high: nat) -> nat
    decreases low.len(),
{
    if low.len() == 0 {
        high
    } else {
        low[0] as nat + 10 * low_value(low.drop_first(), high)
    }
}

/// Digits that stand with the lowest first, written with the highest first.
pub open spec fn written(low: Seq<u8>) -> Seq<u8>
    decreases low.len(),
{
    if low.len() == 0 {
        Seq::empty()
    } else {
        written(low.drop_first()).push((48 + low[0]) as u8)
    }
}

/// Whether digits that stand with the lowest first are each below ten, and
/// the highest is not zero.
pub open spec fn canonical(low: Seq<u8>) -> bool {
    &&& forall|i: int| 0 <= i < low.len() ==> #[trigger] low[i] < 10
    &&& low.len() > 0 ==> low.last() != 0
}

/// Whether every byte is a decimal digit.
pub open spec fn all_digits(text: Seq<u8>) -> bool {
    forall|i: int| 0 <= i < text.len() ==> is_digit(#[trigger] text[i])
}

/// The number that a sign and digits write.
pub open spec fn signed_value(negative: bool, digits: Seq<u8>) -> int {
    if negative {
        -(number_value(digits) as int)
    } else {
        number_value(digits) as int
    }
}

/// -1 for a number below zero, 0 for zero, 1 for a number above.
pub open spec fn sign_of(number: int) -> int {
    if number < 0 {
        -1
    } else if number > 0 {
        1
    } else {
        0
    }
}

/// A bound beyond which a difference of exponents is not followed exactly.
pub const FAR: i128 = 1_000_000_000_000_000_000_000_000_000_000;

/// A bound that no count of the digits of a literal reaches.
pub const NEAR: i128 = 100_000_000_000_000_000_000;

/// A number held within the bound [`FAR`] on either side.
pub open spec fn held(number: int) -> int {
    if number > FAR {
        FAR as int
    } else if number < -FAR {
        -(FAR as int)
    } else {
        number
    }
}

/// A digit put above the others counts ten times what stands above it.
pub proof fn lemma_low_push(low: Seq<u8>, digit: u8, high: nat)
    ensures
        low_value(low.push(digit), high) == low_value(low, digit as nat + 10 * high),
    decreases low.len(),
{
    if low.len() == 0 {
        assert(low.push(digit).drop_first() =~= Seq::<u8>::empty());
        reveal_with_fuel(low_value, 2);
    } else {
        assert(low.push(digit).drop_first() =~= low.drop_first().push(digit));
        lemma_low_push(low.drop_first(), digit, high);
    }
}

/// Digits whose highest is not zero are the digits of the number they write.
pub proof fn lemma_written(low: Seq<u8>)
    requires
        canonical(low),
    ensures
        digits_of(low_value(low, 0)) == written(low),
        low.len() > 0 ==> low_value(low, 0) > 0,
    decreases low.len(),
{
    if low.len() > 0 {
        let rest = low.drop_first();
        assert(low[0] < 10);
        if rest.len() > 0 {
            assert(rest.last() == low.last());
            assert forall|i: int| 0 <= i < rest.len() implies #[trigger] rest[i] < 10 by {
                assert(rest[i] == low[i + 1]);
            }
            lemma_written(rest);
        } else {
            assert(low.last() == low[0]);
        }
        let above = low_value(rest, 0);
        let number = low_value(low, 0);
        assert(number == low[0] as nat + 10 * above);
        assert(number / 10 == above);
        assert(number % 10 == low[0] as nat);
        assert(number > 0);
        reveal_with_fuel(digits_of, 2);
        assert(digits_of(number) == digits_of(above).push((48 + number % 10) as u8));
        assert(written(low) == written(rest).push((48 + low[0]) as u8));
        if rest.len() == 0 {
            assert(written(rest) =~= Seq::<u8>::empty());
            assert(digits_of(above) =~= Seq::<u8>::empty());
        }
    }
}

/// Zeros before the digits of a number do not change it.
pub proof fn lemma_zeros_lead(zeros: Seq<u8>, digits: Seq<u8>)
    requires
        forall|i: int| 0 <= i < zeros.len() ==> #[trigger] zeros[i] == 48,
    ensures
        number_value(zeros + digits) == number_value(digits),
    decreases digits.len(), zeros.len(),
{
    let both = zeros + digits;
    if digits.len() > 0 {
        assert(both.drop_last() =~= zeros + digits.drop_last());
        assert(both.last() == digits.last());
        lemma_zeros_lead(zeros, digits.drop_last());
    } else if zeros.len() > 0 {
        assert(both =~= zeros);
        assert(zeros.drop_last() + digits =~= zeros.drop_last());
        assert forall|i: int| 0 <= i < zeros.drop_last().len() implies #[trigger] zeros.drop_last()[i]
            == 48 by {
            assert(zeros.drop_last()[i] == zeros[i]);
        }
        lemma_zeros_lead(zeros.drop_last(), digits);
    } else {
        assert(both =~= digits);
    }
}

/// Multiplies a number by sixteen and adds a digit in hexadecimal to it.
fn times_sixteen(value: &mut Vec<u8>, digit: u8)
    requires
        canonical(old(value)@),
        digit < 16,
    ensures
        canonical(final(value)@),
        low_value(final(value)@, 0) == 16 * low_value(old(value)@, 0) + digit,
{
    let ghost before = value@;
    let count = value.len();
    let mut carry: u8 = digit;
    let mut at: usize = 0;
    assert(value@.take(0) =~= Seq::<u8>::empty());
    assert(before.skip(0) =~= before);
    while at < count
        invariant
            at <= count,
            count == before.len(),
            value@.len() == count,
            canonical(before),
            carry <= 15,
            forall|k: int| 0 <= k < at ==> #[trigger] value@[k] < 10,
            forall|k: int| at <= k < count ==> #[trigger] value@[k] == before[k],
            low_value(value@.take(at as int), carry as nat + 16 * low_value(before.skip(at as int), 0))
                == 16 * low_value(before, 0) + digit,
            at > 0 && before[at - 1] != 0 ==> carry >= 1,
        decreases count - at,
    {
        let ghost lower = value@.take(at as int);
        let ghost above = low_value(before.skip(at + 1), 0);
        assert(value@[at as int] == before[at as int]);
        assert(before[at as int] < 10);
        let total: u8 = 16 * value[at] + carry;
        let out: u8 = total % 10;
        let next: u8 = total / 10;
        proof {
            assert(before.skip(at as int).drop_first() =~= before.skip(at + 1));
            assert(before.skip(at as int)[0] == before[at as int]);
            assert(low_value(before.skip(at as int), 0) == before[at as int] as nat + 10 * above);
            lemma_low_push(lower, out, next as nat + 16 * above);
        }
        value.set(at, out);
        proof {
            assert(value@.take(at + 1) =~= lower.push(out));
        }
        carry = next;
        at = at + 1;
    }
    assert(value@.take(at as int) =~= value@);
    assert(before.skip(at as int) =~= Seq::<u8>::empty());
    let ghost lower = value@;
    if carry >= 10 {
        value.push(carry % 10);
        value.push(carry / 10);
        proof {
            lemma_low_push(lower, (carry % 10) as u8, (carry / 10) as nat);
            lemma_low_push(lower.push((carry % 10) as u8), (carry / 10) as u8, 0);
        }
    } else if carry > 0 {
        value.push(carry);
        proof {
            lemma_low_push(lower, carry, 0);
        }
    } else {
        if count > 0 {
            assert(before.last() == before[count - 1]);
        }
    }
}

/// Writes a number in decimal that is written in hexadecimal.
pub(crate) fn hex_to_decimal(hex: &Vec<u8>) -> (digits: Vec<u8>)
    requires
        forall|i: int| 0 <= i < hex@.len() ==> is_hex(#[trigger] hex@[i]),
    ensures
        digits@ == digits_of(hex_value(hex@)),
{
    let mut value: Vec<u8> = Vec::new();
    let mut at: usize = 0;
    assert(hex@.take(0) =~= Seq::<u8>::empty());
    while at < hex.len()
        invariant
            at <= hex@.len(),
            forall|i: int| 0 <= i < hex@.len() ==> is_hex(#[trigger] hex@[i]),
            canonical(value@),
            low_value(value@, 0) == hex_value(hex@.take(at as int)),
        decreases hex@.len() - at,
    {
        let byte = hex[at];
        assert(is_hex(hex@[at as int]));
        let digit: u8 = if 48 <= byte && byte <= 57 {
            byte - 48
        } else if 97 <= byte && byte <= 102 {
            byte - 87
        } else {
            byte - 55
        };
        assert(digit == hex_digit(byte));
        times_sixteen(&mut value, digit);
        proof {
            assert(hex@.take(at + 1).drop_last() =~= hex@.take(at as int));
            assert(hex@.take(at + 1).last() == hex@[at as int]);
        }
        at = at + 1;
    }
    assert(hex@.take(at as int) =~= hex@);
    let mut digits: Vec<u8> = Vec::new();
    let mut left: usize = value.len();
    assert(value@.skip(left as int) =~= Seq::<u8>::empty());
    while left > 0
        invariant
            left <= value@.len(),
            canonical(value@),
            digits@ == written(value@.skip(left as int)),
        decreases left,
    {
        left = left - 1;
        assert(value@[left as int] < 10);
        digits.push(48 + value[left]);
        proof {
            assert(value@.skip(left as int).drop_first() =~= value@.skip(left + 1));
            assert(value@.skip(left as int)[0] == value@[left as int]);
        }
    }
    proof {
        assert(value@.skip(0) =~= value@);
        lemma_written(value@);
    }
    digits
}

/// Digits with zeros put before them up to a length.
fn padded(digits: &Vec<u8>, length: usize) -> (longer: Vec<u8>)
    requires
        digits@.len() <= length,
        all_digits(digits@),
    ensures
        longer@.len() == length,
        all_digits(longer@),
        number_value(longer@) == number_value(digits@),
{
    let mut longer: Vec<u8> = Vec::new();
    let missing = length - digits.len();
    let mut at: usize = 0;
    while at < missing
        invariant
            at <= missing,
            longer@.len() == at,
            forall|i: int| 0 <= i < at ==> #[trigger] longer@[i] == 48,
        decreases missing - at,
    {
        longer.push(48);
        at = at + 1;
    }
    let ghost zeros = longer@;
    let mut from: usize = 0;
    while from < digits.len()
        invariant
            from <= digits@.len(),
            longer@ == zeros + digits@.take(from as int),
        decreases digits@.len() - from,
    {
        longer.push(digits[from]);
        from = from + 1;
        assert(longer@ =~= zeros + digits@.take(from as int));
    }
    proof {
        assert(digits@.take(from as int) =~= digits@);
        lemma_zeros_lead(zeros, digits@);
    }
    longer
}

/// Compares two sums, each of a number within [`NEAR`] and a number of any
/// length that is given by its sign and its digits.
pub(crate) fn compare_sums(
    first: i128,
    first_negative: bool,
    first_digits: &Vec<u8>,
    second: i128,
    second_negative: bool,
    second_digits: &Vec<u8>,
) -> (order: i8)
    requires
        -NEAR <= first <= NEAR,
        -NEAR <= second <= NEAR,
        all_digits(first_digits@),
        all_digits(second_digits@),
    ensures
        order == sign_of(
            (first + signed_value(first_negative, first_digits@)) - (second + signed_value(
                second_negative,
                second_digits@,
            )),
        ),
{
    let length = if first_digits.len() > second_digits.len() {
        first_digits.len()
    } else {
        second_digits.len()
    };
    let left = padded(first_digits, length);
    let right = padded(second_digits, length);
    let mut gap: i128 = 0;
    let mut at: usize = 0;
    assert(left@.take(0) =~= Seq::<u8>::empty());
    assert(right@.take(0) =~= Seq::<u8>::empty());
    while at < length
        invariant
            at <= length,
            left@.len() == length,
            right@.len() == length,
            all_digits(left@),
            all_digits(right@),
            gap == held(
                signed_value(first_negative, left@.take(at as int)) - signed_value(
                    second_negative,
                    right@.take(at as int),
                ),
            ),
        decreases length - at,
    {
        assert(is_digit(left@[at as int]));
        assert(is_digit(right@[at as int]));
        let above: i128 = (left[at] - 48) as i128;
        let below: i128 = (right[at] - 48) as i128;
        let term: i128 = (if first_negative {
            -above
        } else {
            above
        }) - (if second_negative {
            -below
        } else {
            below
        });
        proof {
            assert(left@.take(at + 1).drop_last() =~= left@.take(at as int));
            assert(left@.take(at + 1).last() == left@[at as int]);
            assert(right@.take(at + 1).drop_last() =~= right@.take(at as int));
            assert(right@.take(at + 1).last() == right@[at as int]);
        }
        let next: i128 = 10 * gap + term;
        gap = if next > FAR {
            FAR
        } else if next < -FAR {
            -FAR
        } else {
            next
        };
        at = at + 1;
    }
    assert(left@.take(at as int) =~= left@);
    assert(right@.take(at as int) =~= right@);
    if gap >= FAR {
        1
    } else if gap <= -FAR {
        -1
    } else {
        let total = (first - second) + gap;
        if total < 0 {
            -1
        } else if total > 0 {
            1
        } else {
            0
        }
    }
}

} // verus!
