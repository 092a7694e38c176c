//! The order in which the primitives of an array are put: `null`, then
//! `false`, then `true`, then the numbers by their value, then the strings by
//! their bytes.

use crate::natural::{all_digits, compare_sums, hex_to_decimal, signed_value, NEAR};
use vstd::prelude::*;

verus! {

/// Whether a byte is a decimal digit.
pub open spec fn is_digit(byte: u8) -> bool {
    48 <= byte <= 57
}

/// How many digits stand in a row from `from` on.
pub open spec fn digits_from(text: Seq<u8>, from: int) -> int
    decreases text.len() - from,
{
    if 0 <= from < text.len() && is_digit(text[from]) {
        1 + digits_from(text, from + 1)
    } else {
        0
    }
}

/// How many zeros stand in a row from `from` on.
pub open spec fn zeros_from(text: Seq<u8>, from: int) -> int
    decreases text.len() - from,
{
    if 0 <= from < text.len() && text[from] == 48 {
        1 + zeros_from(text, from + 1)
    } else {
        0
    }
}

/// Two texts compared byte by byte from `from` on: -1 where the first comes
/// first, 1 where the second does, 0 where they are the same. A text comes
/// before every text that it begins.
pub open spec fn lex(a: Seq<u8>, b: Seq<u8>, from: int) -> int
    decreases a.len() - from,
{
    if from < 0 || (from >= a.len() && from >= b.len()) {
        0
    } else if from >= a.len() {
        -1
    } else if from >= b.len() {
        1
    } else if a[from] < b[from] {
        -1
    } else if a[from] > b[from] {
        1
    } else {
        lex(a, b, from + 1)
    }
}

/// The digit at a place behind the decimal point, which is zero where the
/// digits have ended.
pub open spec fn place(digits: Seq<u8>, at: int) -> u8 {
    if 0 <= at < digits.len() {
        digits[at]
    } else {
        48
    }
}

/// Two runs of digits behind a decimal point compared as fractions, from the
/// place `from` on.
pub open spec fn fractions(a: Seq<u8>, b: Seq<u8>, from: int) -> int
    decreases a.len() + b.len() - from,
{
    if from < 0 || (from >= a.len() && from >= b.len()) {
        0
    } else if place(a, from) < place(b, from) {
        -1
    } else if place(a, from) > place(b, from) {
        1
    } else {
        fractions(a, b, from + 1)
    }
}

/// A number as the order reads it. Its value is the digits, read as a
/// fraction behind a point, times ten to the power of the scale, or it is
/// infinite.
pub struct Decimal {
    pub negative: bool,
    pub infinite: bool,
    /// The digits from the first that is not zero on; none for zero.
    pub digits: Seq<u8>,
    /// How many of the digits stand before the point, the exponent counted in.
    pub scale: int,
}

/// Whether a literal begins with a sign.
pub open spec fn is_signed(literal: Seq<u8>) -> bool {
    literal.len() > 0 && (literal[0] == 45 || literal[0] == 43)
}

/// A literal without its sign.
pub open spec fn unsigned(literal: Seq<u8>) -> Seq<u8> {
    if is_signed(literal) {
        literal.subrange(1, literal.len() as int)
    } else {
        literal
    }
}

/// The number that a run of decimal digits writes.
pub open spec fn number_value(digits: Seq<u8>) -> nat
    decreases digits.len(),
{
    if digits.len() == 0 {
        0
    } else {
        (10 * number_value(digits.drop_last()) + (digits.last() - 48)) as nat
    }
}

/// Whether a byte is a digit in hexadecimal.
pub open spec fn is_hex(byte: u8) -> bool {
    is_digit(byte) || 97 <= byte <= 102 || 65 <= byte <= 70
}

/// What a digit in hexadecimal counts.
pub open spec fn hex_digit(byte: u8) -> nat {
    if is_digit(byte) {
        (byte - 48) as nat
    } else if 97 <= byte <= 102 {
        (byte - 87) as nat
    } else {
        (byte - 55) as nat
    }
}

/// How many digits in hexadecimal stand in a row from `from` on.
pub open spec fn hex_from(text: Seq<u8>, from: int) -> int
    decreases text.len() - from,
{
    if 0 <= from < text.len() && is_hex(text[from]) {
        1 + hex_from(text, from + 1)
    } else {
        0
    }
}

/// The number that a run of digits in hexadecimal writes.
pub open spec fn hex_value(digits: Seq<u8>) -> nat
    decreases digits.len(),
{
    if digits.len() == 0 {
        0
    } else {
        16 * hex_value(digits.drop_last()) + hex_digit(digits.last())
    }
}

/// The decimal digits of a number, none for zero.
pub open spec fn digits_of(n: nat) -> Seq<u8>
    decreases n,
{
    if n == 0 {
        Seq::empty()
    } else {
        digits_of(n / 10).push((48 + n % 10) as u8)
    }
}

/// The literal `Infinity`.
pub open spec fn infinity_literal() -> Seq<u8> {
    seq![73u8, 110u8, 102u8, 105u8, 110u8, 105u8, 116u8, 121u8]
}

/// Whether a literal without its sign begins as a number in hexadecimal.
pub open spec fn begins_hex(digits: Seq<u8>) -> bool {
    digits.len() > 2 && digits[0] == 48 && (digits[1] == 120 || digits[1] == 88)
}

/// A number in hexadecimal, read from what follows `0x`.
pub open spec fn hex_number(negative: bool, digits: Seq<u8>) -> Option<Decimal> {
    if hex_from(digits, 0) == digits.len() {
        Some(
            Decimal {
                negative,
                infinite: false,
                digits: digits_of(hex_value(digits)),
                scale: digits_of(hex_value(digits)).len() as int,
            },
        )
    } else {
        None
    }
}

/// Where the digits behind the point begin, given where those before it end.
pub open spec fn fraction_start(digits: Seq<u8>, whole: int) -> int {
    if whole < digits.len() && digits[whole] == 46 {
        whole + 1
    } else {
        whole
    }
}

/// Where the digits of a number end and its exponent, if any, begins.
pub open spec fn mantissa_end(digits: Seq<u8>) -> int {
    let whole = digits_from(digits, 0);
    let start = fraction_start(digits, whole);
    if start > whole {
        start + digits_from(digits, start)
    } else {
        whole
    }
}

/// The digits of a number before and behind the point, in one run.
pub open spec fn mantissa(digits: Seq<u8>) -> Seq<u8> {
    let whole = digits_from(digits, 0);
    digits.subrange(0, whole) + digits.subrange(
        fraction_start(digits, whole),
        mantissa_end(digits),
    )
}

/// Where the digits of an exponent begin that is marked at `mark`.
pub open spec fn exponent_start(digits: Seq<u8>, mark: int) -> int {
    if mark + 1 < digits.len() && (digits[mark + 1] == 45 || digits[mark + 1] == 43) {
        mark + 2
    } else {
        mark + 1
    }
}

/// The exponent of a number, where one is written from `mark` on: a letter
/// `e`, a sign or none, and digits to the end.
pub open spec fn exponent_at(digits: Seq<u8>, mark: int) -> Option<int> {
    let start = exponent_start(digits, mark);
    let run = digits.subrange(start, digits.len() as int);
    if 0 <= mark < digits.len() && (digits[mark] == 101 || digits[mark] == 69) && start
        < digits.len() && digits_from(digits, start) == digits.len() - start {
        if digits[mark + 1] == 45 {
            Some(-(number_value(run) as int))
        } else {
            Some(number_value(run) as int)
        }
    } else {
        None
    }
}

/// A number in decimal, with or without a point and an exponent.
pub open spec fn decimal_number(negative: bool, digits: Seq<u8>) -> Option<Decimal> {
    let whole = digits_from(digits, 0);
    let end = mantissa_end(digits);
    let all = mantissa(digits);
    let zeros = zeros_from(all, 0);
    let significant = all.subrange(zeros, all.len() as int);
    if all.len() == 0 {
        None
    } else if end == digits.len() {
        Some(Decimal { negative, infinite: false, digits: significant, scale: whole - zeros })
    } else if exponent_at(digits, end) is Some {
        Some(
            Decimal {
                negative,
                infinite: false,
                digits: significant,
                scale: whole - zeros + exponent_at(digits, end).unwrap(),
            },
        )
    } else {
        None
    }
}

/// The number that a literal writes: `Infinity`, a number in hexadecimal, or
/// a number in decimal with an exponent or without, each of any length and
/// with a sign or without. `NaN` writes none.
pub open spec fn decimal_of(literal: Seq<u8>) -> Option<Decimal> {
    let digits = unsigned(literal);
    let negative = literal.len() > 0 && literal[0] == 45;
    if digits == infinity_literal() {
        Some(Decimal { negative, infinite: true, digits: Seq::empty(), scale: 0 })
    } else if begins_hex(digits) {
        hex_number(negative, digits.subrange(2, digits.len() as int))
    } else {
        decimal_number(negative, digits)
    }
}

/// Whether a number is zero.
pub open spec fn is_zero(number: Decimal) -> bool {
    !number.infinite && number.digits.len() == 0
}

/// Two numbers that are neither zero nor infinite compared without their
/// signs: the one with the greater scale is greater, then the one whose
/// digits are greater at the first place where they differ.
pub open spec fn magnitudes(a: Decimal, b: Decimal) -> int {
    if a.scale < b.scale {
        -1
    } else if a.scale > b.scale {
        1
    } else {
        fractions(a.digits, b.digits, 0)
    }
}

/// -2 and 2 for the infinite numbers, -1 for a number below zero, 0 for zero,
/// 1 for a number above.
pub open spec fn signum(number: Decimal) -> int {
    if number.infinite {
        if number.negative {
            -2
        } else {
            2
        }
    } else if is_zero(number) {
        0
    } else if number.negative {
        -1
    } else {
        1
    }
}

/// Two numbers compared by value.
pub open spec fn values(a: Decimal, b: Decimal) -> int {
    if signum(a) < signum(b) {
        -1
    } else if signum(a) > signum(b) {
        1
    } else if signum(a) == 1 {
        magnitudes(a, b)
    } else if signum(a) == -1 {
        magnitudes(b, a)
    } else {
        0
    }
}

/// The literal `null`.
pub open spec fn null_literal() -> Seq<u8> {
    seq![110u8, 117u8, 108u8, 108u8]
}

/// The literal `false`.
pub open spec fn false_literal() -> Seq<u8> {
    seq![102u8, 97u8, 108u8, 115u8, 101u8]
}

/// The literal `true`.
pub open spec fn true_literal() -> Seq<u8> {
    seq![116u8, 114u8, 117u8, 101u8]
}

/// The rank of a literal by its kind: 0 for `null`, 1 for `false`, 2 for
/// `true`, 4 for a string, which begins with a quote, and 3 for anything
/// else, which is a number.
pub open spec fn rank(literal: Seq<u8>) -> int {
    if literal == null_literal() {
        0
    } else if literal == false_literal() {
        1
    } else if literal == true_literal() {
        2
    } else if literal.len() > 0 && (literal[0] == 34 || literal[0] == 39) {
        4
    } else {
        3
    }
}

/// What stands between the quotes of a string.
pub open spec fn content(literal: Seq<u8>) -> Seq<u8> {
    if literal.len() >= 2 {
        literal.subrange(1, literal.len() - 1)
    } else {
        Seq::empty()
    }
}

/// Two literals of numbers compared: by value, and by their bytes where the
/// values are equal. A literal that writes no value, which is `NaN` with a
/// sign or without, stands behind every number that has one, and such
/// literals stand among themselves by their bytes.
pub open spec fn numbers(a: Seq<u8>, b: Seq<u8>) -> int {
    match (decimal_of(a), decimal_of(b)) {
        (Some(first), Some(second)) => if values(first, second) != 0 {
            values(first, second)
        } else {
            lex(a, b, 0)
        },
        (Some(_), None) => -1,
        (None, Some(_)) => 1,
        (None, None) => lex(a, b, 0),
    }
}

/// Two literals compared: by kind, then numbers by value and strings by the
/// bytes between their quotes, then, where that leaves them equal, by the
/// bytes of the literals. The result is 0 for the same literal only.
pub open spec fn compare(a: Seq<u8>, b: Seq<u8>) -> int {
    if rank(a) < rank(b) {
        -1
    } else if rank(a) > rank(b) {
        1
    } else if rank(a) == 3 {
        numbers(a, b)
    } else if rank(a) == 4 && lex(content(a), content(b), 0) != 0 {
        lex(content(a), content(b), 0)
    } else {
        lex(a, b, 0)
    }
}

fn count_digits(text: &Vec<u8>, from: usize) -> (count: usize)
    requires
        from <= text@.len(),
    ensures
        count == digits_from(text@, from as int),
        from + count <= text@.len(),
{
    let mut at = from;
    while at < text.len() && 48 <= text[at] && text[at] <= 57
        invariant
            from <= at <= text@.len(),
            digits_from(text@, from as int) == (at - from) + digits_from(text@, at as int),
        decreases text@.len() - at,
    {
        at = at + 1;
    }
    at - from
}

fn count_zeros(text: &Vec<u8>, from: usize) -> (count: usize)
    requires
        from <= text@.len(),
    ensures
        count == zeros_from(text@, from as int),
        from + count <= text@.len(),
{
    let mut at = from;
    while at < text.len() && text[at] == 48
        invariant
            from <= at <= text@.len(),
            zeros_from(text@, from as int) == (at - from) + zeros_from(text@, at as int),
        decreases text@.len() - at,
    {
        at = at + 1;
    }
    at - from
}

pub(crate) fn copy_range(text: &Vec<u8>, from: usize, to: usize) -> (part: Vec<u8>)
    requires
        from <= to <= text@.len(),
    ensures
        part@ == text@.subrange(from as int, to as int),
{
    let mut part: Vec<u8> = Vec::new();
    let mut at = from;
    while at < to
        invariant
            from <= at <= to <= text@.len(),
            part@ == text@.subrange(from as int, at as int),
        decreases to - at,
    {
        part.push(text[at]);
        at = at + 1;
        assert(part@ =~= text@.subrange(from as int, at as int));
    }
    part
}

/// Compares two texts byte by byte.
pub fn lex_bytes(a: &Vec<u8>, b: &Vec<u8>) -> (order: i8)
    ensures
        order == lex(a@, b@, 0),
{
    let mut at: usize = 0;
    while at < a.len() && at < b.len() && a[at] == b[at]
        invariant
            at <= a@.len(),
            at <= b@.len(),
            lex(a@, b@, 0) == lex(a@, b@, at as int),
        decreases a@.len() - at,
    {
        at = at + 1;
    }
    if at >= a.len() && at >= b.len() {
        0
    } else if at >= a.len() {
        -1
    } else if at >= b.len() {
        1
    } else if a[at] < b[at] {
        -1
    } else {
        1
    }
}

fn digit_at(digits: &Vec<u8>, at: usize) -> (digit: u8)
    ensures
        digit == place(digits@, at as int),
{
    if at < digits.len() {
        digits[at]
    } else {
        48
    }
}

fn compare_fractions(a: &Vec<u8>, b: &Vec<u8>) -> (order: i8)
    ensures
        order == fractions(a@, b@, 0),
{
    let mut at: usize = 0;
    while (at < a.len() || at < b.len()) && digit_at(a, at) == digit_at(b, at)
        invariant
            fractions(a@, b@, 0) == fractions(a@, b@, at as int),
        decreases a@.len() + b@.len() - at,
    {
        at = at + 1;
    }
    if at >= a.len() && at >= b.len() {
        0
    } else if digit_at(a, at) < digit_at(b, at) {
        -1
    } else {
        1
    }
}

/// A number as the comparison reads it. Its scale is the sum of a count of
/// digits and of the exponent, which is kept as it is written, since it can
/// be of any length.
pub struct Number {
    pub negative: bool,
    pub infinite: bool,
    pub digits: Vec<u8>,
    pub base: i128,
    pub exponent_negative: bool,
    pub exponent: Vec<u8>,
}

impl View for Number {
    type V = Decimal;

    open spec fn view(&self) -> Decimal {
        Decimal {
            negative: self.negative,
            infinite: self.infinite,
            digits: self.digits@,
            scale: self.base + signed_value(self.exponent_negative, self.exponent@),
        }
    }
}

impl Number {
    /// Whether the number is one that was read: its exponent is written in
    /// digits, and the count of digits is one of a literal.
    pub open spec fn is_read(&self) -> bool {
        all_digits(self.exponent@) && -NEAR <= self.base <= NEAR
    }
}

fn count_hex(text: &Vec<u8>, from: usize) -> (count: usize)
    requires
        from <= text@.len(),
    ensures
        count == hex_from(text@, from as int),
        from + count <= text@.len(),
{
    let mut at = from;
    while at < text.len() && ((48 <= text[at] && text[at] <= 57) || (97 <= text[at] && text[at]
        <= 102) || (65 <= text[at] && text[at] <= 70))
        invariant
            from <= at <= text@.len(),
            hex_from(text@, from as int) == (at - from) + hex_from(text@, at as int),
        decreases text@.len() - at,
    {
        at = at + 1;
    }
    at - from
}

/// Where digits in hexadecimal stand in a row to the end, each byte is one.
proof fn lemma_all_hex(text: Seq<u8>, from: int, at: int)
    requires
        0 <= from <= at < text.len(),
        hex_from(text, from) == text.len() - from,
    ensures
        is_hex(text[at]),
    decreases at - from,
{
    lemma_hex_bound(text, from + 1);
    if from < at {
        lemma_all_hex(text, from + 1, at);
    }
}

/// No more digits stand in a row than there are bytes.
proof fn lemma_hex_bound(text: Seq<u8>, from: int)
    requires
        0 <= from <= text.len(),
    ensures
        hex_from(text, from) <= text.len() - from,
    decreases text.len() - from,
{
    if from < text.len() {
        lemma_hex_bound(text, from + 1);
    }
}

fn read_exponent(digits: &Vec<u8>, mark: usize) -> (exponent: Option<(bool, Vec<u8>)>)
    requires
        mark < digits@.len(),
    ensures
        match exponent {
            Some((negative, run)) => exponent_at(digits@, mark as int) == Some(
                signed_value(negative, run@),
            ) && all_digits(run@),
            None => exponent_at(digits@, mark as int) is None,
        },
{
    let length = digits.len();
    if !(digits[mark] == 101 || digits[mark] == 69) {
        return None;
    }
    let signed = mark + 1 < length && (digits[mark + 1] == 45 || digits[mark + 1] == 43);
    let start = if signed {
        mark + 2
    } else {
        mark + 1
    };
    if start >= digits.len() {
        return None;
    }
    let count = count_digits(digits, start);
    if count != digits.len() - start {
        return None;
    }
    let run = copy_range(digits, start, digits.len());
    proof {
        lemma_all_digits(digits@, start as int);
    }
    Some((digits[mark + 1] == 45, run))
}

/// Where digits stand in a row to the end, each byte from there on is one.
proof fn lemma_all_digits(text: Seq<u8>, from: int)
    requires
        0 <= from <= text.len(),
        digits_from(text, from) == text.len() - from,
    ensures
        forall|i: int|
            0 <= i < text.len() - from ==> is_digit(
                #[trigger] text.subrange(from, text.len() as int)[i],
            ),
    decreases text.len() - from,
{
    if from < text.len() {
        lemma_digits_bound(text, from + 1);
        lemma_all_digits(text, from + 1);
        assert forall|i: int| 0 <= i < text.len() - from implies is_digit(
            #[trigger] text.subrange(from, text.len() as int)[i],
        ) by {
            if i > 0 {
                assert(text.subrange(from, text.len() as int)[i] == text.subrange(
                    from + 1,
                    text.len() as int,
                )[i - 1]);
            }
        }
    }
}

/// No more digits stand in a row than there are bytes.
proof fn lemma_digits_bound(text: Seq<u8>, from: int)
    requires
        0 <= from <= text.len(),
    ensures
        digits_from(text, from) <= text.len() - from,
    decreases text.len() - from,
{
    if from < text.len() {
        lemma_digits_bound(text, from + 1);
    }
}

fn join(first: &Vec<u8>, second: &Vec<u8>) -> (both: Vec<u8>)
    ensures
        both@ == first@ + second@,
{
    let mut both = copy_range(first, 0, first.len());
    assert(first@.subrange(0, first@.len() as int) =~= first@);
    let mut at: usize = 0;
    while at < second.len()
        invariant
            at <= second@.len(),
            both@ == first@ + second@.subrange(0, at as int),
        decreases second@.len() - at,
    {
        both.push(second[at]);
        at = at + 1;
        assert(both@ =~= first@ + second@.subrange(0, at as int));
    }
    assert(second@.subrange(0, at as int) =~= second@);
    both
}

fn read_plain(negative: bool, digits: &Vec<u8>) -> (number: Option<Number>)
    ensures
        match number {
            Some(read) => decimal_number(negative, digits@) == Some(read@) && read.is_read(),
            None => decimal_number(negative, digits@) is None,
        },
{
    let whole = count_digits(digits, 0);
    let pointed = whole < digits.len() && digits[whole] == 46;
    let start = if pointed {
        whole + 1
    } else {
        whole
    };
    let end = if pointed {
        start + count_digits(digits, start)
    } else {
        whole
    };
    let all = join(&copy_range(digits, 0, whole), &copy_range(digits, start, end));
    assert(all@ =~= mantissa(digits@));
    if all.len() == 0 {
        return None;
    }
    let zeros = count_zeros(&all, 0);
    let significant = copy_range(&all, zeros, all.len());
    let base: i128 = whole as i128 - zeros as i128;
    if end == digits.len() {
        Some(
            Number {
                negative,
                infinite: false,
                digits: significant,
                base,
                exponent_negative: false,
                exponent: Vec::new(),
            },
        )
    } else {
        match read_exponent(digits, end) {
            Some((exponent_negative, exponent)) => Some(
                Number {
                    negative,
                    infinite: false,
                    digits: significant,
                    base,
                    exponent_negative,
                    exponent,
                },
            ),
            None => None,
        }
    }
}

/// Reads a literal as a number.
pub fn read_decimal(literal: &Vec<u8>) -> (number: Option<Number>)
    ensures
        match number {
            Some(read) => decimal_of(literal@) == Some(read@) && read.is_read(),
            None => decimal_of(literal@) is None,
        },
{
    let signed = literal.len() > 0 && (literal[0] == 45 || literal[0] == 43);
    let negative = literal.len() > 0 && literal[0] == 45;
    let digits = if signed {
        copy_range(literal, 1, literal.len())
    } else {
        copy_range(literal, 0, literal.len())
    };
    assert(digits@ =~= unsigned(literal@));
    let infinity: Vec<u8> = vec![73u8, 110u8, 102u8, 105u8, 110u8, 105u8, 116u8, 121u8];
    assert(infinity@ =~= infinity_literal());
    if same_bytes(&digits, &infinity) {
        Some(
            Number {
                negative,
                infinite: true,
                digits: Vec::new(),
                base: 0,
                exponent_negative: false,
                exponent: Vec::new(),
            },
        )
    } else if digits.len() > 2 && digits[0] == 48 && (digits[1] == 120 || digits[1] == 88) {
        let run = copy_range(&digits, 2, digits.len());
        if count_hex(&run, 0) != run.len() {
            return None;
        }
        proof {
            assert forall|i: int| 0 <= i < run@.len() implies is_hex(#[trigger] run@[i]) by {
                lemma_all_hex(run@, 0, i);
            }
        }
        let written = hex_to_decimal(&run);
        let base = written.len() as i128;
        Some(
            Number {
                negative,
                infinite: false,
                digits: written,
                base,
                exponent_negative: false,
                exponent: Vec::new(),
            },
        )
    } else {
        read_plain(negative, &digits)
    }
}

fn number_signum(number: &Number) -> (sign: i8)
    ensures
        sign == signum(number@),
{
    if number.infinite {
        if number.negative {
            -2
        } else {
            2
        }
    } else if number.digits.len() == 0 {
        0
    } else if number.negative {
        -1
    } else {
        1
    }
}

fn compare_magnitudes(a: &Number, b: &Number) -> (order: i8)
    requires
        a.is_read(),
        b.is_read(),
    ensures
        order == magnitudes(a@, b@),
{
    let scales = compare_sums(
        a.base,
        a.exponent_negative,
        &a.exponent,
        b.base,
        b.exponent_negative,
        &b.exponent,
    );
    if scales != 0 {
        scales
    } else {
        compare_fractions(&a.digits, &b.digits)
    }
}

/// Compares two numbers by value.
pub fn compare_values(a: &Number, b: &Number) -> (order: i8)
    requires
        a.is_read(),
        b.is_read(),
    ensures
        order == values(a@, b@),
{
    let first = number_signum(a);
    let second = number_signum(b);
    if first < second {
        -1
    } else if first > second {
        1
    } else if first == 1 {
        compare_magnitudes(a, b)
    } else if first == -1 {
        compare_magnitudes(b, a)
    } else {
        0
    }
}

fn same_bytes(a: &Vec<u8>, b: &Vec<u8>) -> (same: bool)
    ensures
        same == (a@ == b@),
{
    if a.len() != b.len() {
        return false;
    }
    let mut at: usize = 0;
    while at < a.len()
        invariant
            a@.len() == b@.len(),
            at <= a@.len(),
            forall|i: int| 0 <= i < at ==> a@[i] == b@[i],
        decreases a@.len() - at,
    {
        if a[at] != b[at] {
            return false;
        }
        at = at + 1;
    }
    assert(a@ =~= b@);
    true
}

/// The rank of a literal by its kind.
pub fn rank_of(literal: &Vec<u8>) -> (kind: u8)
    ensures
        kind == rank(literal@),
{
    let null: Vec<u8> = vec![110u8, 117u8, 108u8, 108u8];
    let no: Vec<u8> = vec![102u8, 97u8, 108u8, 115u8, 101u8];
    let yes: Vec<u8> = vec![116u8, 114u8, 117u8, 101u8];
    assert(null@ =~= null_literal());
    assert(no@ =~= false_literal());
    assert(yes@ =~= true_literal());
    if same_bytes(literal, &null) {
        0
    } else if same_bytes(literal, &no) {
        1
    } else if same_bytes(literal, &yes) {
        2
    } else if literal.len() > 0 && (literal[0] == 34 || literal[0] == 39) {
        4
    } else {
        3
    }
}

fn string_content(literal: &Vec<u8>) -> (inner: Vec<u8>)
    ensures
        inner@ == content(literal@),
{
    if literal.len() >= 2 {
        copy_range(literal, 1, literal.len() - 1)
    } else {
        Vec::new()
    }
}

/// Compares two literals: -1 where the first comes first, 1 where the second
/// does, 0 where they are the same.
pub fn compare_literals(a: &Vec<u8>, b: &Vec<u8>) -> (order: i8)
    ensures
        order == compare(a@, b@),
{
    let first = rank_of(a);
    let second = rank_of(b);
    if first < second {
        -1
    } else if first > second {
        1
    } else if first == 3 {
        match (read_decimal(a), read_decimal(b)) {
            (Some(left), Some(right)) => {
                let by_value = compare_values(&left, &right);
                if by_value != 0 {
                    by_value
                } else {
                    lex_bytes(a, b)
                }
            },
            (Some(_), None) => -1,
            (None, Some(_)) => 1,
            (None, None) => lex_bytes(a, b),
        }
    } else if first == 4 {
        let inner = lex_bytes(&string_content(a), &string_content(b));
        if inner != 0 {
            inner
        } else {
            lex_bytes(a, b)
        }
    } else {
        lex_bytes(a, b)
    }
}

/// Comparing bytes the other way round gives the opposite.
pub proof fn lemma_lex_opposite(a: Seq<u8>, b: Seq<u8>, from: int)
    ensures
        lex(a, b, from) == -lex(b, a, from),
    decreases a.len() + b.len() - from,
{
    if 0 <= from && from < a.len() && from < b.len() && a[from] == b[from] {
        lemma_lex_opposite(a, b, from + 1);
    }
}

/// Comparing fractions the other way round gives the opposite.
pub proof fn lemma_fractions_opposite(a: Seq<u8>, b: Seq<u8>, from: int)
    ensures
        fractions(a, b, from) == -fractions(b, a, from),
    decreases a.len() + b.len() - from,
{
    if 0 <= from && (from < a.len() || from < b.len()) && place(a, from) == place(b, from) {
        lemma_fractions_opposite(a, b, from + 1);
    }
}

/// Comparing numbers by value the other way round gives the opposite.
pub proof fn lemma_values_opposite(a: Decimal, b: Decimal)
    ensures
        values(a, b) == -values(b, a),
{
    lemma_fractions_opposite(a.digits, b.digits, 0);
}

/// Comparing two literals the other way round gives the opposite, so the
/// order is the same whichever of two literals is looked at first.
pub proof fn lemma_compare_opposite(a: Seq<u8>, b: Seq<u8>)
    ensures
        compare(a, b) == -compare(b, a),
{
    lemma_lex_opposite(a, b, 0);
    lemma_lex_opposite(content(a), content(b), 0);
    if decimal_of(a) is Some && decimal_of(b) is Some {
        lemma_values_opposite(decimal_of(a).unwrap(), decimal_of(b).unwrap());
    }
}

/// Two texts that compare as equal from a place on are the same from there.
pub proof fn lemma_lex_same(a: Seq<u8>, b: Seq<u8>, from: int)
    requires
        0 <= from <= a.len(),
        from <= b.len(),
        lex(a, b, from) == 0,
    ensures
        a.len() == b.len(),
        forall|i: int| from <= i < a.len() ==> a[i] == b[i],
    decreases a.len() + b.len() - from,
{
    if from < a.len() && from < b.len() {
        lemma_lex_same(a, b, from + 1);
    }
}

/// Two literals compare as equal only where they are the same literal.
pub proof fn lemma_compare_same(a: Seq<u8>, b: Seq<u8>)
    requires
        compare(a, b) == 0,
    ensures
        a == b,
{
    lemma_lex_same(a, b, 0);
    assert(a =~= b);
}

/// Bytes compared in a row: where the first text does not come after the
/// second and the second not after the third, the first does not come after
/// the third, and comes before it where one of the two comes before.
pub proof fn lemma_lex_chain(a: Seq<u8>, b: Seq<u8>, c: Seq<u8>, from: int)
    requires
        0 <= from,
        lex(a, b, from) <= 0,
        lex(b, c, from) <= 0,
    ensures
        lex(a, c, from) <= 0,
        lex(a, b, from) < 0 || lex(b, c, from) < 0 ==> lex(a, c, from) < 0,
    decreases a.len() + b.len() + c.len() - from,
{
    if from < a.len() && from < b.len() && from < c.len() && a[from] == b[from] && b[from]
        == c[from] {
        lemma_lex_chain(a, b, c, from + 1);
    }
}

/// The same for fractions.
pub proof fn lemma_fractions_chain(a: Seq<u8>, b: Seq<u8>, c: Seq<u8>, from: int)
    requires
        0 <= from,
        fractions(a, b, from) <= 0,
        fractions(b, c, from) <= 0,
    ensures
        fractions(a, c, from) <= 0,
        fractions(a, b, from) < 0 || fractions(b, c, from) < 0 ==> fractions(a, c, from) < 0,
    decreases a.len() + b.len() + c.len() - from,
{
    if (from < a.len() || from < b.len() || from < c.len()) && place(a, from) == place(b, from)
        && place(b, from) == place(c, from) {
        lemma_fractions_chain(a, b, c, from + 1);
    }
}

/// The same for numbers compared by value.
pub proof fn lemma_values_chain(a: Decimal, b: Decimal, c: Decimal)
    requires
        values(a, b) <= 0,
        values(b, c) <= 0,
    ensures
        values(a, c) <= 0,
        values(a, b) < 0 || values(b, c) < 0 ==> values(a, c) < 0,
{
    if signum(a) == signum(b) && signum(b) == signum(c) {
        if signum(a) == 1 && a.scale == b.scale && b.scale == c.scale {
            lemma_fractions_chain(a.digits, b.digits, c.digits, 0);
        }
        if signum(a) == -1 && a.scale == b.scale && b.scale == c.scale {
            lemma_fractions_chain(c.digits, b.digits, a.digits, 0);
        }
    }
}

/// The order of literals goes on in a row: where the first of three literals
/// does not come after the second, and the second not after the third, the
/// first does not come after the third.
pub proof fn lemma_compare_chain(a: Seq<u8>, b: Seq<u8>, c: Seq<u8>)
    requires
        compare(a, b) <= 0,
        compare(b, c) <= 0,
    ensures
        compare(a, c) <= 0,
{
    if rank(a) == rank(b) && rank(b) == rank(c) {
        if rank(a) == 3 && decimal_of(a) is None && decimal_of(b) is None && decimal_of(c)
            is None {
            lemma_lex_chain(a, b, c, 0);
        } else if rank(a) == 3 && (decimal_of(a) is None || decimal_of(b) is None || decimal_of(
            c,
        ) is None) {
        } else if rank(a) == 3 {
            let first = decimal_of(a).unwrap();
            let second = decimal_of(b).unwrap();
            let third = decimal_of(c).unwrap();
            lemma_values_opposite(first, second);
            lemma_values_opposite(second, third);
            if values(first, second) <= 0 && values(second, third) <= 0 {
                lemma_values_chain(first, second, third);
                if values(first, third) == 0 {
                    lemma_lex_chain(a, b, c, 0);
                }
            }
        } else if rank(a) == 4 {
            if lex(content(a), content(b), 0) <= 0 && lex(content(b), content(c), 0) <= 0 {
                lemma_lex_chain(content(a), content(b), content(c), 0);
                if lex(content(a), content(c), 0) == 0 {
                    lemma_lex_chain(a, b, c, 0);
                }
            }
        } else {
            lemma_lex_chain(a, b, c, 0);
        }
    }
}

} // verus!
