//! Numbers that stand for a decimal literal exactly, whatever its size.
use crate::digits::{
    all_digits, canonical_digits, copy, digits_of, is_canonical, is_divisible, is_multiple,
    lemma_canonical_digits_of_value, lemma_canonical_unique,
    lemma_multiple_of_tens, lemma_multiple_signs, lemma_pow10_positive, lemma_value_last,
    less_than, pow10, power, reduced, same, shift, strip, times_power, trim, value,
};
use std::collections::hash_map::DefaultHasher;
use std::hash::Hasher;
use vstd::prelude::*;
use vstd::string::StringExecFns;

verus! {

/// `c` is one of the ten decimal digits.
pub open spec fn is_digit(c: char) -> bool {
    '0' <= c && c <= '9'
}

/// The number that the decimal digit `c` stands for.
pub open spec fn digit_value(c: char) -> u8 {
    (c as u32 - 48) as u8
}

/// The decimal digits among the characters of `s`, in their order.
pub open spec fn digits_in(s: Seq<char>) -> Seq<u8>
    decreases s.len(),
{
    if s.len() == 0 {
        Seq::empty()
    } else if is_digit(s.last()) {
        digits_in(s.drop_last()).push(digit_value(s.last()))
    } else {
        digits_in(s.drop_last())
    }
}

/// The text starts with a plus or a minus sign.
pub open spec fn has_sign(t: Seq<char>) -> bool {
    t.len() > 0 && (t[0] == '-' || t[0] == '+')
}

/// The text without its sign, if it has one.
pub open spec fn after_sign(t: Seq<char>) -> Seq<char> {
    if has_sign(t) {
        t.subrange(1, t.len() as int)
    } else {
        t
    }
}

/// Every character is a decimal digit.
pub open spec fn only_digits(s: Seq<char>) -> bool {
    forall|i: int| 0 <= i < s.len() ==> is_digit(#[trigger] s[i])
}

/// The whole number that `t` denotes, where `t` is an optional sign
/// followed by one or more decimal digits and nothing else.
pub open spec fn integer_literal(t: Seq<char>) -> Option<int> {
    let body = after_sign(t);
    if body.len() > 0 && only_digits(body) {
        if t[0] == '-' {
            Some(-(value(digits_in(body)) as int))
        } else {
            Some(value(digits_in(body)) as int)
        }
    } else {
        None
    }
}

pub proof fn lemma_digits_in_push(s: Seq<char>, c: char)
    ensures
        digits_in(s.push(c)) == if is_digit(c) {
            digits_in(s).push(digit_value(c))
        } else {
            digits_in(s)
        },
{
    assert(s.push(c).drop_last() =~= s);
}

pub proof fn lemma_digits_in_are_digits(s: Seq<char>)
    ensures
        all_digits(digits_in(s)),
        digits_in(s).len() <= s.len(),
        only_digits(s) ==> digits_in(s).len() == s.len(),
    decreases s.len(),
{
    if s.len() > 0 {
        let front = s.drop_last();
        lemma_digits_in_are_digits(front);
        if only_digits(s) {
            assert(is_digit(s[s.len() - 1]));
            assert forall|i: int| 0 <= i < front.len() implies is_digit(#[trigger] front[i]) by {
                assert(front[i] == s[i]);
            }
        }
        let all = digits_in(s);
        assert forall|i: int| 0 <= i < all.len() implies #[trigger] all[i] < 10 by {
            if i < digits_in(front).len() {
                assert(all[i] == digits_in(front)[i]);
            }
        }
    }
}

/// A whole number of any size.
#[derive(Debug)]
pub struct BigInteger {
    negative: bool,
    magnitude: Vec<u8>,
}

impl BigInteger {
    /// The digits are decimal and start with no zero, and zero has no sign.
    #[verifier::type_invariant]
    pub closed spec fn wf(&self) -> bool {
        &&& all_digits(self.magnitude@)
        &&& is_canonical(self.magnitude@)
        &&& self.magnitude@.len() == 0 ==> !self.negative
    }

    /// The number itself.
    pub closed spec fn value(&self) -> int {
        if self.negative {
            -(value(self.magnitude@) as int)
        } else {
            value(self.magnitude@) as int
        }
    }

    /// The whole number with the given sign and digits.
    fn from_parts(negative: bool, digits: &Vec<u8>) -> (r: BigInteger)
        requires
            all_digits(digits@),
        ensures
            r.wf(),
            r.value() == if negative {
                -(value(digits@) as int)
            } else {
                value(digits@) as int
            },
            is_canonical(digits@) ==> r.magnitude@ == digits@,
    {
        let magnitude = trim(digits);
        let negative = negative && magnitude.len() > 0;
        BigInteger { negative, magnitude }
    }

    /// Reads an optional sign and then one or more decimal digits.
    pub fn parse(text: &str) -> (r: Option<BigInteger>)
        ensures
            match r {
                Some(i) => i.wf() && integer_literal(text@) == Some(i.value()),
                None => integer_literal(text@) is None,
            },
    {
        let ghost t = text@;
        let mut digits: Vec<u8> = Vec::new();
        let mut signed = false;
        let mut negative = false;
        let mut first = true;
        for c in it: text.chars()
            invariant
                it.seq() == t,
                t == text@,
                first == (it.index() == 0),
                signed == (it.index() > 0 && (t[0] == '-' || t[0] == '+')),
                negative == (it.index() > 0 && t[0] == '-'),
                forall|j: int| (if signed { 1int } else { 0 }) <= j < it.index() ==> is_digit(#[trigger] t[j]),
                digits@ == digits_in(t.subrange(if signed { 1int } else { 0 }, it.index() as int)),
        {
            let ghost idx = it.index() as int;
            assert(c == t[idx]);
            if first && (c == '-' || c == '+') {
                signed = true;
                negative = c == '-';
                assert(t.subrange(1, 1) =~= Seq::<char>::empty());
            } else if c >= '0' && c <= '9' {
                let d: u8 = (c as u32 - 48) as u8;
                proof {
                    let off = if signed { 1int } else { 0 };
                    assert(t.subrange(off, idx + 1) =~= t.subrange(off, idx).push(c));
                    lemma_digits_in_push(t.subrange(off, idx), c);
                }
                digits.push(d);
            } else {
                proof {
                    let body = after_sign(t);
                    let off = if has_sign(t) { 1int } else { 0 };
                    assert(body[idx - off] == t[idx]);
                }
                return None;
            }
            first = false;
        }
        proof {
            let body = after_sign(t);
            assert(body =~= t.subrange(if signed { 1int } else { 0 }, t.len() as int));
            lemma_digits_in_are_digits(body);
            assert(only_digits(body)) by {
                assert forall|i: int| 0 <= i < body.len() implies is_digit(#[trigger] body[i]) by {
                    let off = if signed { 1int } else { 0 };
                    assert(body[i] == t[i + off]);
                }
            }
        }
        if digits.len() == 0 {
            return None;
        }
        Some(BigInteger::from_parts(negative, &digits))
    }
}

impl Clone for BigInteger {
    fn clone(&self) -> (r: Self)
        ensures
            r.wf(),
            r.value() == self.value(),
    {
        proof {
            use_type_invariant(self);
        }
        BigInteger { negative: self.negative, magnitude: copy(&self.magnitude) }
    }
}

/// A number that is no whole number, as a whole numerator over a power of
/// ten: `unscaled / 10^scale`, with `scale` as small as it can be. Every
/// number that a decimal literal or a binary float denotes has this form.
#[derive(Debug)]
pub struct BigDecimal {
    unscaled: BigInteger,
    scale: usize,
}

impl BigDecimal {
    /// The numerator is well formed and does not end in a zero, and there is
    /// at least one digit behind the point.
    #[verifier::type_invariant]
    pub closed spec fn wf(&self) -> bool {
        &&& self.unscaled.wf()
        &&& self.scale >= 1
        &&& self.unscaled.magnitude@.len() > 0
        &&& self.unscaled.magnitude@.last() != 0
    }

    /// The numerator over `10^scale`.
    pub closed spec fn numerator(&self) -> int {
        self.unscaled.value()
    }

    /// The number of digits behind the decimal point.
    pub closed spec fn scale(&self) -> nat {
        self.scale as nat
    }
}

impl Clone for BigDecimal {
    fn clone(&self) -> (r: Self)
        ensures
            r.wf(),
            r.numerator() == self.numerator(),
            r.scale() == self.scale(),
    {
        proof {
            use_type_invariant(self);
        }
        let unscaled = BigInteger {
            negative: self.unscaled.negative,
            magnitude: copy(&self.unscaled.magnitude),
        };
        BigDecimal { unscaled, scale: self.scale }
    }
}

/// Why a text is no number.
#[derive(Debug, PartialEq, Eq, Clone, Copy)]
pub enum PerfectPrecisionNumberError {
    Invalid(&'static str),
}

impl PerfectPrecisionNumberError {
    /// The error in words.
    pub fn to_string(&self) -> (r: String)
        ensures
            self matches PerfectPrecisionNumberError::Invalid(reason) && r@ == "Invalid value: "@
                + reason@,
    {
        match self {
            PerfectPrecisionNumberError::Invalid(human_readable_reason) => {
                let mut text = String::from_str("Invalid value: ");
                text.append(human_readable_reason);
                text
            },
        }
    }
}

/// The three forms of an exact number.
pub enum NumberKind {
    Integer,
    IntegerFromFloat,
    Rational,
}

/// The two ways in which a text can fail to be a decimal literal.
pub enum LiteralFault {
    InvalidDigit,
    MultipleDecimalPoints,
}

/// The message that goes with a fault.
pub open spec fn fault_message(fault: LiteralFault) -> Seq<char> {
    match fault {
        LiteralFault::InvalidDigit => "Invalid digit (accepted digits in [0-9])"@,
        LiteralFault::MultipleDecimalPoints => "Multiple decimal points in the input string"@,
    }
}

/// The text starts with a minus sign.
pub open spec fn is_negative_literal(t: Seq<char>) -> bool {
    t.len() > 0 && t[0] == '-'
}

/// The first fault met when `s` is read from the left: a second decimal
/// point, or a character that is neither a digit nor a point.
pub open spec fn literal_fault(s: Seq<char>) -> Option<LiteralFault>
    decreases s.len(),
{
    if s.len() == 0 {
        None
    } else if literal_fault(s.drop_last()) is Some {
        literal_fault(s.drop_last())
    } else if s.last() == '.' {
        if s.drop_last().contains('.') {
            Some(LiteralFault::MultipleDecimalPoints)
        } else {
            None
        }
    } else if is_digit(s.last()) {
        None
    } else {
        Some(LiteralFault::InvalidDigit)
    }
}

/// The number of digits of `s` that stand behind a decimal point.
pub open spec fn fraction_len(s: Seq<char>) -> nat
    decreases s.len(),
{
    if s.len() == 0 {
        0
    } else if is_digit(s.last()) && s.drop_last().contains('.') {
        fraction_len(s.drop_last()) + 1
    } else {
        fraction_len(s.drop_last())
    }
}

/// What the text `t` denotes: the form of the number, its numerator and the
/// number of digits behind the point, in the shortest form; or the fault
/// that makes `t` no number.
///
/// An optional sign and digits alone denote an `Integer`. Otherwise the text
/// is an optional sign, plus or minus, then digits with at most one decimal
/// point among them. Where the digits behind the point are not all zero the
/// number is a `Rational`. Where they are, it is a whole number, an
/// `IntegerFromFloat` if the text holds a point or a minus sign.
pub open spec fn decimal_literal(t: Seq<char>) -> Result<(NumberKind, int, nat), LiteralFault> {
    if integer_literal(t) is Some {
        Ok((NumberKind::Integer, integer_literal(t).unwrap(), 0))
    } else {
        let body = after_sign(t);
        match literal_fault(body) {
            Some(fault) => Err(fault),
            None => {
                let (m, k) = reduced(value(digits_in(body)), fraction_len(body));
                let numerator = if is_negative_literal(t) {
                    -(m as int)
                } else {
                    m as int
                };
                let kind = if k > 0 {
                    NumberKind::Rational
                } else if body.contains('.') || is_negative_literal(t) {
                    NumberKind::IntegerFromFloat
                } else {
                    NumberKind::Integer
                };
                Ok((kind, numerator, k))
            },
        }
    }
}

/// Two to the power 52: the size of the fraction of a double.
pub const FRACTION_SIZE: u64 = 4_503_599_627_370_496;

/// The fraction bits of the double with the given bits.
pub open spec fn float_fraction(bits: u64) -> nat {
    (bits % FRACTION_SIZE) as nat
}

/// The exponent bits of the double with the given bits.
pub open spec fn float_exponent(bits: u64) -> nat {
    ((bits / FRACTION_SIZE) % 2048) as nat
}

/// The sign bit of the double with the given bits.
pub open spec fn float_is_negative(bits: u64) -> bool {
    bits / FRACTION_SIZE >= 2048
}

/// The double is a number: neither infinite nor a NaN.
pub open spec fn float_is_finite(bits: u64) -> bool {
    float_exponent(bits) != 2047
}

/// The whole number `m` for which the double is `m * 2^e` up to its sign,
/// with `e` as [`float_power`] gives it.
pub open spec fn float_significand(bits: u64) -> nat {
    if float_exponent(bits) == 0 {
        float_fraction(bits)
    } else {
        (float_fraction(bits) + FRACTION_SIZE) as nat
    }
}

/// The power of two by which the significand of the double is taken.
pub open spec fn float_power(bits: u64) -> int {
    if float_exponent(bits) == 0 {
        -1074
    } else {
        float_exponent(bits) - 1075
    }
}

/// What a finite double denotes, exactly: the form of the number, its
/// numerator and the number of digits behind the point, in the shortest form.
/// `m * 2^e` is a whole number where `e` is not below zero, and else
/// `m * 5^-e / 10^-e`. It is a `Rational` where digits are left behind the
/// point and an `IntegerFromFloat` where none are.
pub open spec fn float_number(bits: u64) -> (NumberKind, int, nat) {
    let m = float_significand(bits);
    let e = float_power(bits);
    let (n, k) = if e >= 0 {
        (m * power(2, e as nat), 0nat)
    } else {
        reduced(m * power(5, (-e) as nat), (-e) as nat)
    };
    let numerator = if float_is_negative(bits) {
        -(n as int)
    } else {
        n as int
    };
    let kind = if k > 0 {
        NumberKind::Rational
    } else {
        NumberKind::IntegerFromFloat
    };
    (kind, numerator, k)
}

/// The character for a decimal digit.
pub open spec fn digit_character(d: u8) -> char {
    ((d + 48) as u8) as char
}

/// The characters for decimal digits.
pub open spec fn digit_characters(digits: Seq<u8>) -> Seq<char> {
    Seq::new(digits.len(), |i: int| digit_character(digits[i]))
}

/// The decimal text of `digits / 10^scale`, with a minus sign where asked
/// for: the digits before the point, or a zero where there are none, and,
/// where `scale` is not zero, a point and `scale` digits behind it.
pub open spec fn decimal_text(negative: bool, digits: Seq<u8>, scale: nat) -> Seq<char> {
    let sign = if negative {
        seq!['-']
    } else {
        Seq::<char>::empty()
    };
    let whole = if digits.len() > scale {
        digit_characters(digits.subrange(0, digits.len() - scale))
    } else {
        seq!['0']
    };
    let fraction = if scale == 0 {
        Seq::<char>::empty()
    } else if digits.len() >= scale {
        seq!['.'] + digit_characters(digits.subrange(digits.len() - scale, digits.len() as int))
    } else {
        seq!['.'] + digit_characters(crate::digits::zeros((scale - digits.len()) as nat) + digits)
    };
    sign + whole + fraction
}

/// Writes the characters for the digits from `from` up to `to` behind the
/// text.
fn push_digits(text: &mut String, digits: &Vec<u8>, from: usize, to: usize)
    requires
        all_digits(digits@),
        from <= to <= digits@.len(),
    ensures
        final(text)@ == old(text)@ + digit_characters(digits@.subrange(from as int, to as int)),
{
    let mut i: usize = from;
    assert(digit_characters(digits@.subrange(from as int, from as int)) =~= Seq::<char>::empty());
    assert(text@ =~= old(text)@ + Seq::<char>::empty());
    while i < to
        invariant
            from <= i <= to,
            to <= digits@.len(),
            all_digits(digits@),
            text@ == old(text)@ + digit_characters(digits@.subrange(from as int, i as int)),
        decreases to - i,
    {
        let d = digits[i];
        assert(d < 10);
        let piece: &'static str = match d {
            0 => "0",
            1 => "1",
            2 => "2",
            3 => "3",
            4 => "4",
            5 => "5",
            6 => "6",
            7 => "7",
            8 => "8",
            _ => "9",
        };
        proof {
            reveal_strlit("0");
            reveal_strlit("1");
            reveal_strlit("2");
            reveal_strlit("3");
            reveal_strlit("4");
            reveal_strlit("5");
            reveal_strlit("6");
            reveal_strlit("7");
            reveal_strlit("8");
            reveal_strlit("9");
            assert(piece@ =~= seq![digit_character(d)]);
        }
        text.append(piece);
        proof {
            let now = digits@.subrange(from as int, i + 1);
            let before = digits@.subrange(from as int, i as int);
            assert(digit_characters(now) =~= digit_characters(before) + seq![digit_character(d)]);
            assert(text@ =~= old(text)@ + digit_characters(now));
        }
        i += 1;
    }
}

/// A number that stands for a decimal literal exactly.
///
/// `Integer` and `IntegerFromFloat` hold a whole number and differ only in
/// how the number was written; `Rational` holds a number that is not whole.
#[derive(Debug)]
pub enum PerfectPrecisionNumber {
    Integer(BigInteger),
    IntegerFromFloat(BigInteger),
    Rational(BigDecimal),
}

impl PerfectPrecisionNumber {
    /// The parts are well formed.
    pub open spec fn wf(&self) -> bool {
        match self {
            PerfectPrecisionNumber::Integer(i) => i.wf(),
            PerfectPrecisionNumber::IntegerFromFloat(i) => i.wf(),
            PerfectPrecisionNumber::Rational(d) => d.wf(),
        }
    }

    /// Which of the three forms this is.
    pub open spec fn kind(&self) -> NumberKind {
        match self {
            PerfectPrecisionNumber::Integer(_) => NumberKind::Integer,
            PerfectPrecisionNumber::IntegerFromFloat(_) => NumberKind::IntegerFromFloat,
            PerfectPrecisionNumber::Rational(_) => NumberKind::Rational,
        }
    }

    /// The number is `numerator / 10^scale`.
    pub open spec fn numerator(&self) -> int {
        match self {
            PerfectPrecisionNumber::Integer(i) => i.value(),
            PerfectPrecisionNumber::IntegerFromFloat(i) => i.value(),
            PerfectPrecisionNumber::Rational(d) => d.numerator(),
        }
    }

    /// The number of digits behind the decimal point: zero for a whole
    /// number.
    pub open spec fn scale(&self) -> nat {
        match self {
            PerfectPrecisionNumber::Integer(_) => 0,
            PerfectPrecisionNumber::IntegerFromFloat(_) => 0,
            PerfectPrecisionNumber::Rational(d) => d.scale(),
        }
    }

    /// The two are the same number: they have the same shortest form.
    pub open spec fn spec_same_value(&self, other: &Self) -> bool {
        self.numerator() == other.numerator() && self.scale() == other.scale()
    }

    /// This number is below the other: `a / 10^j < b / 10^k` where
    /// `a * 10^k < b * 10^j`.
    pub open spec fn spec_less_than(&self, other: &Self) -> bool {
        self.numerator() * pow10(other.scale()) < other.numerator() * pow10(self.scale())
    }

    /// This number is the other one taken a whole number of times:
    /// `a / 10^j` is `n` times `b / 10^k` where `a * 10^k` is `n` times
    /// `b * 10^j`.
    pub open spec fn spec_is_multiple_of(&self, number: &Self) -> bool {
        is_multiple(
            self.numerator() * pow10(number.scale()),
            number.numerator() * pow10(self.scale()),
        )
    }

    /// The sign, the digits of the numerator without its sign, and the
    /// number of digits behind the point.
    fn parts(&self) -> (r: (bool, &Vec<u8>, usize))
        ensures
            self.wf(),
            all_digits(r.1@),
            is_canonical(r.1@),
            self.numerator() == if r.0 {
                -(value(r.1@) as int)
            } else {
                value(r.1@) as int
            },
            r.0 ==> value(r.1@) > 0,
            self.scale() == r.2,
            r.2 > 0 ==> r.1@.len() > 0 && r.1@.last() != 0,
    {
        match self {
            PerfectPrecisionNumber::Integer(i) | PerfectPrecisionNumber::IntegerFromFloat(i) => {
                proof {
                    use_type_invariant(i);
                    lemma_nonzero(i.magnitude@);
                }
                (i.negative, &i.magnitude, 0)
            },
            PerfectPrecisionNumber::Rational(d) => {
                proof {
                    use_type_invariant(d);
                    lemma_nonzero(d.unscaled.magnitude@);
                }
                (d.unscaled.negative, &d.unscaled.magnitude, d.scale)
            },
        }
    }

    /// Whether the two are the same number.
    pub fn same_value(&self, other: &Self) -> (r: bool)
        ensures
            r == self.spec_same_value(other),
    {
        let (a_negative, a_digits, a_scale) = self.parts();
        let (b_negative, b_digits, b_scale) = other.parts();
        proof {
            if value(a_digits@) == value(b_digits@) {
                lemma_canonical_unique(a_digits@, b_digits@);
            }
        }
        a_scale == b_scale && a_negative == b_negative && same(a_digits, b_digits)
    }

    /// Whether this number is below the other.
    pub fn less_than(&self, other: &Self) -> (r: bool)
        ensures
            r == self.spec_less_than(other),
    {
        let (a_negative, a_digits, a_scale) = self.parts();
        let (b_negative, b_digits, b_scale) = other.parts();
        let ghost a = value(a_digits@) as int;
        let ghost b = value(b_digits@) as int;
        let ghost p = pow10(b_scale as nat) as int;
        let ghost q = pow10(a_scale as nat) as int;
        proof {
            lemma_pow10_positive(a_scale as nat);
            lemma_pow10_positive(b_scale as nat);
            lemma_product_sign(a, p);
            lemma_product_sign(b, q);
            lemma_product_sign(-a, p);
            lemma_product_sign(-b, q);
            lemma_negated_product(a, p);
            lemma_negated_product(b, q);
        }
        if a_negative != b_negative {
            a_negative
        } else {
            let left = shift(a_digits, b_scale);
            let right = shift(b_digits, a_scale);
            assert(value(left@) == a * p && value(right@) == b * q);
            if a_negative {
                less_than(&right, &left)
            } else {
                less_than(&left, &right)
            }
        }
    }

    /// Whether this number is the other one taken a whole number of times.
    /// Zero is a multiple of every number, and the only multiple of zero.
    pub fn is_multiple_of(&self, number: &Self) -> (r: bool)
        ensures
            r == self.spec_is_multiple_of(number),
    {
        let (a_negative, a_digits, a_scale) = self.parts();
        let (b_negative, b_digits, b_scale) = number.parts();
        let ghost a = value(a_digits@) as int;
        let ghost b = value(b_digits@) as int;
        let ghost p = pow10(b_scale as nat) as int;
        let ghost q = pow10(a_scale as nat) as int;
        proof {
            lemma_multiple_signs(a * p, b * q);
            lemma_multiple_signs(-(a * p), b * q);
            lemma_negated_product(a, p);
            lemma_negated_product(b, q);
            assert(pow10(0) == 1);
            assert(a * 1 == a && b * 1 == b);
            assert(is_multiple(self.numerator() * p, number.numerator() * q) == is_multiple(
                a * p,
                b * q,
            ));
        }
        match (self, number) {
            (PerfectPrecisionNumber::Rational(_), PerfectPrecisionNumber::Rational(_)) => {
                // (a / 10^j) / (b / 10^k) is whole where b * 10^j divides a * 10^k.
                let dividend = shift(a_digits, b_scale);
                let divisor = shift(b_digits, a_scale);
                is_divisible(&dividend, &divisor)
            },
            (PerfectPrecisionNumber::Rational(_), _) => {
                // A number with digits behind the point is no multiple of a
                // whole number.
                proof {
                    lemma_value_last(a_digits@);
                    if is_multiple(a, b * q) {
                        lemma_multiple_of_tens(a, b, a_scale as nat);
                    }
                }
                false
            },
            (_, PerfectPrecisionNumber::Rational(_)) => {
                // a / (b / 10^k) is whole where b divides a * 10^k.
                let dividend = shift(a_digits, b_scale);
                is_divisible(&dividend, b_digits)
            },
            (_, _) => is_divisible(a_digits, b_digits),
        }
    }

    /// What hashing this number writes: whether it is below zero, the
    /// digits of its numerator, and those of the number of digits behind
    /// the point. The same number writes the same, whichever form it has.
    pub open spec fn hash_writes(&self) -> Seq<Seq<u8>> {
        seq![
            seq![if self.numerator() < 0 { 1u8 } else { 0u8 }],
            canonical_digits(vstd::math::abs(self.numerator())),
            canonical_digits(self.scale()),
        ]
    }

    /// Feeds this number into a hasher.
    pub fn hash(&self, state: &mut DefaultHasher)
        ensures
            final(state)@ == old(state)@ + self.hash_writes(),
    {
        let (negative, digits, scale) = self.parts();
        let mut sign: Vec<u8> = Vec::new();
        sign.push(if negative { 1u8 } else { 0u8 });
        let places = digits_of(scale as u128);
        proof {
            lemma_canonical_digits_of_value(digits@);
            lemma_canonical_digits_of_value(places@);
            assert(sign@ =~= seq![if self.numerator() < 0 { 1u8 } else { 0u8 }]);
        }
        state.write(sign.as_slice());
        state.write(digits.as_slice());
        state.write(places.as_slice());
        assert(state@ =~= old(state)@ + self.hash_writes());
    }

    /// The whole number with the given sign and size.
    pub(crate) fn from_native(negative: bool, magnitude: u128) -> (r: Self)
        ensures
            r.wf(),
            r is Integer,
            r.numerator() == if negative {
                -(magnitude as int)
            } else {
                magnitude as int
            },
    {
        let digits = digits_of(magnitude);
        PerfectPrecisionNumber::Integer(BigInteger::from_parts(negative, &digits))
    }

    /// The number that a double denotes, from the bits of the double. An
    /// infinite double and a NaN denote no number.
    pub fn try_from_f64_bits(bits: u64) -> (r: Result<
        PerfectPrecisionNumber,
        PerfectPrecisionNumberError,
    >)
        ensures
            match r {
                Ok(n) => float_is_finite(bits) && n.wf() && float_number(bits) == (
                    n.kind(),
                    n.numerator(),
                    n.scale(),
                ),
                Err(PerfectPrecisionNumberError::Invalid(message)) => !float_is_finite(bits)
                    && message@ == if float_fraction(bits) == 0 {
                    "Infinite numbers are not managed"@
                } else {
                    "NaN numbers are not managed"@
                },
            },
    {
        let fraction = bits % FRACTION_SIZE;
        let high = bits / FRACTION_SIZE;
        let exponent = high % 2048;
        let negative = high >= 2048;
        if exponent == 2047 {
            return if fraction == 0 {
                Err(PerfectPrecisionNumberError::Invalid("Infinite numbers are not managed"))
            } else {
                Err(PerfectPrecisionNumberError::Invalid("NaN numbers are not managed"))
            };
        }
        let significand = if exponent == 0 {
            fraction
        } else {
            fraction + FRACTION_SIZE
        };
        let digits = digits_of(significand as u128);
        if exponent >= 1075 {
            let whole = times_power(&digits, 2, (exponent - 1075) as usize);
            Ok(PerfectPrecisionNumber::IntegerFromFloat(BigInteger::from_parts(negative, &whole)))
        } else {
            let places: usize = if exponent == 0 {
                1074
            } else {
                (1075 - exponent) as usize
            };
            let raw = times_power(&digits, 5, places);
            let (numerator, scale) = strip(&raw, places);
            let unscaled = BigInteger::from_parts(negative, &numerator);
            if scale > 0 {
                Ok(PerfectPrecisionNumber::Rational(BigDecimal { unscaled, scale }))
            } else {
                Ok(PerfectPrecisionNumber::IntegerFromFloat(unscaled))
            }
        }
    }

    /// The decimal text of the number, exactly.
    pub open spec fn text(&self) -> Seq<char> {
        decimal_text(
            self.numerator() < 0,
            canonical_digits(vstd::math::abs(self.numerator())),
            self.scale(),
        )
    }

    /// The decimal text of the number, exactly.
    pub fn to_string(&self) -> (r: String)
        ensures
            r@ == self.text(),
    {
        let (negative, digits, scale) = self.parts();
        proof {
            lemma_canonical_digits_of_value(digits@);
        }
        let mut text = String::new();
        let n = digits.len();
        if negative {
            text.append("-");
        }
        if n > scale {
            push_digits(&mut text, digits, 0, n - scale);
        } else {
            text.append("0");
        }
        let ghost head = text@;
        if scale > 0 {
            text.append(".");
            if n >= scale {
                push_digits(&mut text, digits, n - scale, n);
            } else {
                let padding = shift(&Vec::new(), scale - n);
                let ghost pad = padding@;
                push_digits(&mut text, &padding, 0, scale - n);
                push_digits(&mut text, digits, 0, n);
                proof {
                    let zeros = crate::digits::zeros((scale - n) as nat);
                    assert(pad =~= zeros);
                    assert(pad.subrange(0, scale - n) =~= pad);
                    assert(digits@.subrange(0, n as int) =~= digits@);
                    assert(digit_characters(zeros + digits@) =~= digit_characters(zeros)
                        + digit_characters(digits@));
                }
            }
        }
        proof {
            reveal_strlit("-");
            reveal_strlit("0");
            reveal_strlit(".");
            assert("-"@ =~= seq!['-']);
            assert("0"@ =~= seq!['0']);
            assert("."@ =~= seq!['.']);
            assert(text@ =~= self.text());
        }
        text
    }

    /// Reads a decimal literal.
    pub fn from_str(text: &str) -> (r: Result<PerfectPrecisionNumber, PerfectPrecisionNumberError>)
        ensures
            match r {
                Ok(n) => n.wf() && decimal_literal(text@) == Ok::<_, LiteralFault>(
                    (n.kind(), n.numerator(), n.scale()),
                ),
                Err(PerfectPrecisionNumberError::Invalid(message)) => decimal_literal(text@) is Err
                    && message@ == fault_message(decimal_literal(text@)->Err_0),
            },
    {
        if let Some(integer) = BigInteger::parse(text) {
            return Ok(PerfectPrecisionNumber::Integer(integer));
        }
        let ghost t = text@;
        let ghost off: int = if has_sign(t) { 1 } else { 0 };
        let mut digits: Vec<u8> = Vec::new();
        let mut negative = false;
        let mut first = true;
        let mut point_at: Option<usize> = None;
        assert(t.subrange(0, 0) =~= Seq::<char>::empty());
        for c in it: text.chars()
            invariant
                it.seq() == t,
                t == text@,
                off == if has_sign(t) { 1int } else { 0 },
                integer_literal(t) is None,
                first == (it.index() == 0),
                negative == (it.index() > 0 && t[0] == '-'),
                it.index() > 0 ==> off <= it.index(),
                ({
                    let from = if it.index() == 0 { 0 } else { off };
                    let read = t.subrange(from, it.index() as int);
                    &&& literal_fault(read) is None
                    &&& digits@ == digits_in(read)
                    &&& point_at is Some <==> read.contains('.')
                    &&& point_at matches Some(p) ==> p <= digits@.len() && digits@.len() - p
                        == fraction_len(read)
                    &&& point_at is None ==> fraction_len(read) == 0
                }),
        {
            let ghost idx = it.index() as int;
            let ghost from = if idx == 0 { 0 } else { off };
            let ghost read = t.subrange(from, idx);
            assert(c == t[idx]);
            if first && (c == '-' || c == '+') {
                negative = c == '-';
                assert(t.subrange(1, 1) =~= Seq::<char>::empty());
            } else {
                let ghost next = t.subrange(off, idx + 1);
                proof {
                    assert(idx == 0 ==> off == 0);
                    assert(next =~= read.push(c));
                    assert(next.drop_last() =~= read);
                    assert(next.last() == c);
                    assert(next =~= after_sign(t).subrange(0, next.len() as int));
                    lemma_digits_in_push(read, c);
                }
                if c == '.' {
                    if point_at.is_some() {
                        proof {
                            lemma_fault_stays(next, after_sign(t));
                        }
                        return Err(
                            PerfectPrecisionNumberError::Invalid(
                                "Multiple decimal points in the input string",
                            ),
                        );
                    }
                    point_at = Some(digits.len());
                    proof {
                        assert(next.contains('.')) by {
                            assert(next[next.len() - 1] == '.');
                        }
                    }
                } else if c >= '0' && c <= '9' {
                    let d: u8 = (c as u32 - 48) as u8;
                    digits.push(d);
                    proof {
                        lemma_contains_push(read, c, '.');
                    }
                } else {
                    proof {
                        lemma_fault_stays(next, after_sign(t));
                    }
                    return Err(
                        PerfectPrecisionNumberError::Invalid(
                            "Invalid digit (accepted digits in [0-9])",
                        ),
                    );
                }
            }
            first = false;
        }
        let ghost body = after_sign(t);
        proof {
            if t.len() == 0 {
                assert(body =~= t.subrange(0, 0));
            } else {
                assert(body =~= t.subrange(off, t.len() as int));
            }
            lemma_digits_in_are_digits(body);
        }
        let limit = match point_at {
            Some(p) => digits.len() - p,
            None => 0,
        };
        let (numerator, scale) = strip(&digits, limit);
        let unscaled = BigInteger::from_parts(negative, &numerator);
        if scale > 0 {
            Ok(PerfectPrecisionNumber::Rational(BigDecimal { unscaled, scale }))
        } else if point_at.is_some() || negative {
            Ok(PerfectPrecisionNumber::IntegerFromFloat(unscaled))
        } else {
            Ok(PerfectPrecisionNumber::Integer(unscaled))
        }
    }
}

/// A fault found in the first characters of a text is the fault of the
/// whole text.
pub proof fn lemma_fault_stays(read: Seq<char>, whole: Seq<char>)
    requires
        read.len() <= whole.len(),
        read == whole.subrange(0, read.len() as int),
        literal_fault(read) is Some,
    ensures
        literal_fault(whole) == literal_fault(read),
    decreases whole.len() - read.len(),
{
    if read.len() < whole.len() {
        let front = whole.drop_last();
        assert(read =~= front.subrange(0, read.len() as int));
        lemma_fault_stays(read, front);
    } else {
        assert(read =~= whole);
    }
}

pub proof fn lemma_contains_push(s: Seq<char>, c: char, needle: char)
    ensures
        s.push(c).contains(needle) <==> s.contains(needle) || c == needle,
{
    let t = s.push(c);
    if s.contains(needle) {
        let i = choose|i: int| 0 <= i < s.len() && s[i] == needle;
        assert(t[i] == needle);
    }
    if c == needle {
        assert(t[t.len() - 1] == needle);
    }
    if t.contains(needle) {
        let i = choose|i: int| 0 <= i < t.len() && t[i] == needle;
        if i < s.len() {
            assert(s[i] == needle);
        }
    }
}

impl From<u8> for PerfectPrecisionNumber {
    fn from(value: u8) -> (r: Self)
        ensures
            r.wf(),
            r is Integer,
            r.numerator() == value,
    {
        PerfectPrecisionNumber::from_native(false, value as u128)
    }
}

impl vstd::std_specs::convert::FromSpecImpl<u8> for PerfectPrecisionNumber {
    open spec fn obeys_from_spec() -> bool {
        false
    }

    open spec fn from_spec(value: u8) -> Self {
        arbitrary()
    }
}

impl From<u16> for PerfectPrecisionNumber {
    fn from(value: u16) -> (r: Self)
        ensures
            r.wf(),
            r is Integer,
            r.numerator() == value,
    {
        PerfectPrecisionNumber::from_native(false, value as u128)
    }
}

impl vstd::std_specs::convert::FromSpecImpl<u16> for PerfectPrecisionNumber {
    open spec fn obeys_from_spec() -> bool {
        false
    }

    open spec fn from_spec(value: u16) -> Self {
        arbitrary()
    }
}

impl From<u32> for PerfectPrecisionNumber {
    fn from(value: u32) -> (r: Self)
        ensures
            r.wf(),
            r is Integer,
            r.numerator() == value,
    {
        PerfectPrecisionNumber::from_native(false, value as u128)
    }
}

impl vstd::std_specs::convert::FromSpecImpl<u32> for PerfectPrecisionNumber {
    open spec fn obeys_from_spec() -> bool {
        false
    }

    open spec fn from_spec(value: u32) -> Self {
        arbitrary()
    }
}

impl From<u64> for PerfectPrecisionNumber {
    fn from(value: u64) -> (r: Self)
        ensures
            r.wf(),
            r is Integer,
            r.numerator() == value,
    {
        PerfectPrecisionNumber::from_native(false, value as u128)
    }
}

impl vstd::std_specs::convert::FromSpecImpl<u64> for PerfectPrecisionNumber {
    open spec fn obeys_from_spec() -> bool {
        false
    }

    open spec fn from_spec(value: u64) -> Self {
        arbitrary()
    }
}

impl From<u128> for PerfectPrecisionNumber {
    fn from(value: u128) -> (r: Self)
        ensures
            r.wf(),
            r is Integer,
            r.numerator() == value,
    {
        PerfectPrecisionNumber::from_native(false, value as u128)
    }
}

impl vstd::std_specs::convert::FromSpecImpl<u128> for PerfectPrecisionNumber {
    open spec fn obeys_from_spec() -> bool {
        false
    }

    open spec fn from_spec(value: u128) -> Self {
        arbitrary()
    }
}

impl From<i8> for PerfectPrecisionNumber {
    fn from(value: i8) -> (r: Self)
        ensures
            r.wf(),
            r is Integer,
            r.numerator() == value,
    {
        if value < 0 {
            PerfectPrecisionNumber::from_native(true, (-(value + 1)) as u128 + 1)
        } else {
            PerfectPrecisionNumber::from_native(false, value as u128)
        }
    }
}

impl vstd::std_specs::convert::FromSpecImpl<i8> for PerfectPrecisionNumber {
    open spec fn obeys_from_spec() -> bool {
        false
    }

    open spec fn from_spec(value: i8) -> Self {
        arbitrary()
    }
}

impl From<i16> for PerfectPrecisionNumber {
    fn from(value: i16) -> (r: Self)
        ensures
            r.wf(),
            r is Integer,
            r.numerator() == value,
    {
        if value < 0 {
            PerfectPrecisionNumber::from_native(true, (-(value + 1)) as u128 + 1)
        } else {
            PerfectPrecisionNumber::from_native(false, value as u128)
        }
    }
}

impl vstd::std_specs::convert::FromSpecImpl<i16> for PerfectPrecisionNumber {
    open spec fn obeys_from_spec() -> bool {
        false
    }

    open spec fn from_spec(value: i16) -> Self {
        arbitrary()
    }
}

impl From<i32> for PerfectPrecisionNumber {
    fn from(value: i32) -> (r: Self)
        ensures
            r.wf(),
            r is Integer,
            r.numerator() == value,
    {
        if value < 0 {
            PerfectPrecisionNumber::from_native(true, (-(value + 1)) as u128 + 1)
        } else {
            PerfectPrecisionNumber::from_native(false, value as u128)
        }
    }
}

impl vstd::std_specs::convert::FromSpecImpl<i32> for PerfectPrecisionNumber {
    open spec fn obeys_from_spec() -> bool {
        false
    }

    open spec fn from_spec(value: i32) -> Self {
        arbitrary()
    }
}

impl From<i64> for PerfectPrecisionNumber {
    fn from(value: i64) -> (r: Self)
        ensures
            r.wf(),
            r is Integer,
            r.numerator() == value,
    {
        if value < 0 {
            PerfectPrecisionNumber::from_native(true, (-(value + 1)) as u128 + 1)
        } else {
            PerfectPrecisionNumber::from_native(false, value as u128)
        }
    }
}

impl vstd::std_specs::convert::FromSpecImpl<i64> for PerfectPrecisionNumber {
    open spec fn obeys_from_spec() -> bool {
        false
    }

    open spec fn from_spec(value: i64) -> Self {
        arbitrary()
    }
}

impl From<i128> for PerfectPrecisionNumber {
    fn from(value: i128) -> (r: Self)
        ensures
            r.wf(),
            r is Integer,
            r.numerator() == value,
    {
        if value < 0 {
            PerfectPrecisionNumber::from_native(true, (-(value + 1)) as u128 + 1)
        } else {
            PerfectPrecisionNumber::from_native(false, value as u128)
        }
    }
}

impl vstd::std_specs::convert::FromSpecImpl<i128> for PerfectPrecisionNumber {
    open spec fn obeys_from_spec() -> bool {
        false
    }

    open spec fn from_spec(value: i128) -> Self {
        arbitrary()
    }
}

impl Clone for PerfectPrecisionNumber {
    fn clone(&self) -> (r: Self)
        ensures
            r.wf(),
            r.kind() == self.kind(),
            r.numerator() == self.numerator(),
            r.scale() == self.scale(),
    {
        match self {
            PerfectPrecisionNumber::Integer(i) => PerfectPrecisionNumber::Integer(i.clone()),
            PerfectPrecisionNumber::IntegerFromFloat(i) => PerfectPrecisionNumber::IntegerFromFloat(
                i.clone(),
            ),
            PerfectPrecisionNumber::Rational(d) => PerfectPrecisionNumber::Rational(d.clone()),
        }
    }
}

impl std::str::FromStr for PerfectPrecisionNumber {
    type Err = PerfectPrecisionNumberError;

    /// Reads a decimal literal, as the function of the same name on the
    /// type does.
    fn from_str(text: &str) -> (r: Result<Self, Self::Err>)
        ensures
            match r {
                Ok(n) => n.wf() && decimal_literal(text@) == Ok::<_, LiteralFault>(
                    (n.kind(), n.numerator(), n.scale()),
                ),
                Err(PerfectPrecisionNumberError::Invalid(message)) => decimal_literal(text@) is Err
                    && message@ == fault_message(decimal_literal(text@)->Err_0),
            },
    {
        PerfectPrecisionNumber::from_str(text)
    }
}

/// Canonical digits denote zero only where there are none.
proof fn lemma_nonzero(s: Seq<u8>)
    requires
        is_canonical(s),
    ensures
        s.len() > 0 ==> value(s) > 0,
{
    if s.len() > 0 {
        crate::digits::lemma_value_lower_bound(s);
        lemma_pow10_positive((s.len() - 1) as nat);
    }
}

/// A product with a positive number has the sign of the other factor.
proof fn lemma_product_sign(n: int, p: int)
    requires
        p > 0,
    ensures
        n < 0 ==> n * p < 0,
        n >= 0 ==> n * p >= 0,
{
    assert(n < 0 ==> n * p < 0) by (nonlinear_arith)
        requires
            p > 0,
    ;
    assert(n >= 0 ==> n * p >= 0) by (nonlinear_arith)
        requires
            p > 0,
    ;
}

proof fn lemma_negated_product(n: int, p: int)
    ensures
        (-n) * p == -(n * p),
{
    assert((-n) * p == -(n * p)) by (nonlinear_arith);
}

/// A number that does not end in a zero is not ten times a whole number,
/// whatever its sign.
proof fn lemma_not_tens(n: int, v: nat, c: int)
    requires
        n == v || n == -v,
        v % 10 != 0,
    ensures
        n != 10 * c,
{
    if n == 10 * c {
        if n == v {
            assert(c * 10 == v);
            vstd::arithmetic::div_mod::lemma_mod_multiples_basic(c, 10);
        } else {
            assert((-c) * 10 == v);
            vstd::arithmetic::div_mod::lemma_mod_multiples_basic(-c, 10);
        }
    }
}

/// A well-formed number is in its shortest form: it has digits behind the
/// point exactly where it is a `Rational`, and then its numerator is not ten
/// times a whole number. A whole number is never held as a `Rational`.
pub proof fn lemma_shortest_form(n: PerfectPrecisionNumber, c: int)
    requires
        n.wf(),
    ensures
        n.scale() > 0 <==> n is Rational,
        n.scale() > 0 ==> n.numerator() != 10 * c,
{
    if let PerfectPrecisionNumber::Rational(d) = n {
        lemma_value_last(d.unscaled.magnitude@);
        lemma_not_tens(d.unscaled.value(), value(d.unscaled.magnitude@), c);
    }
}

/// Two well-formed numbers are the same number exactly where they have the
/// same numerator and the same number of digits behind the point: equality
/// of the forms is equality of the values.
pub proof fn lemma_same_value(a: PerfectPrecisionNumber, b: PerfectPrecisionNumber)
    requires
        a.wf(),
        b.wf(),
    ensures
        a.spec_same_value(&b) <==> a.numerator() * pow10(b.scale()) == b.numerator() * pow10(
            a.scale(),
        ),
{
    let j = a.scale();
    let k = b.scale();
    let x = a.numerator();
    let y = b.numerator();
    lemma_pow10_positive(j);
    lemma_pow10_positive(k);
    if x * pow10(k) == y * pow10(j) {
        if j == k {
            assert(x == y) by (nonlinear_arith)
                requires
                    x * pow10(k) == y * pow10(k),
                    pow10(k) > 0,
            ;
        } else if j < k {
            lemma_unequal_scales(a, b);
        } else {
            lemma_unequal_scales(b, a);
        }
    }
}

/// Numbers with different numbers of digits behind the point differ.
proof fn lemma_unequal_scales(a: PerfectPrecisionNumber, b: PerfectPrecisionNumber)
    requires
        a.wf(),
        b.wf(),
        a.scale() < b.scale(),
    ensures
        a.numerator() * pow10(b.scale()) != b.numerator() * pow10(a.scale()),
{
    let j = a.scale();
    let k = b.scale();
    let x = a.numerator();
    let y = b.numerator();
    let more = (k - j - 1) as nat;
    lemma_pow10_positive(j);
    crate::digits::lemma_pow10_add((k - j) as nat, j);
    assert(pow10((k - j) as nat) == 10 * pow10(more));
    let c = x * pow10(more);
    if x * pow10(k) == y * pow10(j) {
        assert(x * (10 * pow10(more) * pow10(j)) == (10 * c) * pow10(j)) by (nonlinear_arith)
            requires
                c == x * pow10(more),
        ;
        assert(y == 10 * c) by (nonlinear_arith)
            requires
                (10 * c) * pow10(j) == y * pow10(j),
                pow10(j) > 0,
        ;
        lemma_shortest_form(b, c);
    }
}

/// Every number is a multiple of itself.
pub proof fn lemma_multiple_of_itself(n: PerfectPrecisionNumber)
    ensures
        n.spec_is_multiple_of(&n),
{
    let x = n.numerator() * pow10(n.scale());
    assert(x == 1 * x);
}

/// A text that is an optional sign and digits, with no decimal point,
/// denotes an `Integer`: the whole number that the digits spell.
pub proof fn lemma_integer_literal(t: Seq<char>)
    requires
        after_sign(t).len() > 0,
        only_digits(after_sign(t)),
    ensures
        integer_literal(t) is Some,
        decimal_literal(t) == Ok::<_, LiteralFault>(
            (NumberKind::Integer, integer_literal(t).unwrap(), 0nat),
        ),
{
}

/// A plus sign before a text that has no sign changes nothing of what the
/// text denotes, with or without a decimal point.
pub proof fn lemma_plus_sign(s: Seq<char>)
    requires
        !has_sign(s),
    ensures
        decimal_literal(seq!['+'] + s) == decimal_literal(s),
{
    let t = seq!['+'] + s;
    assert(t[0] == '+');
    assert(after_sign(t) =~= s);
    assert(after_sign(s) == s);
}

/// The text holds a character that is neither a digit nor a decimal point.
pub open spec fn has_stray_character(s: Seq<char>) -> bool {
    exists|i: int| 0 <= i < s.len() && !is_digit(#[trigger] s[i]) && s[i] != '.'
}

/// The text holds more than one decimal point.
pub open spec fn has_two_points(s: Seq<char>) -> bool {
    exists|i: int, j: int| 0 <= i < j < s.len() && #[trigger] s[i] == '.' && #[trigger] s[j] == '.'
}

/// A text has a fault exactly where it holds a second decimal point or a
/// character that is neither a digit nor a point.
pub proof fn lemma_fault(s: Seq<char>)
    ensures
        literal_fault(s) is Some <==> has_stray_character(s) || has_two_points(s),
    decreases s.len(),
{
    if s.len() > 0 {
        let front = s.drop_last();
        let end = s.len() - 1;
        lemma_fault(front);
        if has_stray_character(front) {
            let i = choose|i: int| 0 <= i < front.len() && !is_digit(#[trigger] front[i]) && front[i] != '.';
            assert(s[i] == front[i]);
        }
        if has_two_points(front) {
            let (i, j) = choose|i: int, j: int|
                0 <= i < j < front.len() && #[trigger] front[i] == '.' && #[trigger] front[j] == '.';
            assert(s[i] == '.' && s[j] == '.');
        }
        if literal_fault(front) is None {
            if has_stray_character(s) {
                let i = choose|i: int| 0 <= i < s.len() && !is_digit(#[trigger] s[i]) && s[i] != '.';
                if i < end {
                    assert(front[i] == s[i]);
                }
                assert(i == end);
            }
            if has_two_points(s) {
                let (i, j) = choose|i: int, j: int|
                    0 <= i < j < s.len() && #[trigger] s[i] == '.' && #[trigger] s[j] == '.';
                assert(front[i] == '.');
                if j < end {
                    assert(front[j] == '.');
                }
                assert(j == end);
                assert(front.contains('.'));
            }
            if s.last() == '.' && front.contains('.') {
                let i = choose|i: int| 0 <= i < front.len() && front[i] == '.';
                assert(s[i] == '.' && s[end] == '.');
            }
            if s.last() != '.' && !is_digit(s.last()) {
                assert(!is_digit(s[end]) && s[end] != '.');
            }
        }
    }
}

/// A text is no number exactly where, behind its sign if it has one, it
/// holds a second decimal point or a character that is neither a digit nor a
/// point.
pub proof fn lemma_literal_fails(t: Seq<char>)
    ensures
        decimal_literal(t) is Err <==> has_stray_character(after_sign(t)) || has_two_points(
            after_sign(t),
        ),
{
    let body = after_sign(t);
    lemma_fault(body);
    if integer_literal(t) is Some {
        if has_stray_character(body) {
            let i = choose|i: int| 0 <= i < body.len() && !is_digit(#[trigger] body[i]) && body[i] != '.';
            assert(is_digit(body[i]));
        }
        if has_two_points(body) {
            let (i, j) = choose|i: int, j: int|
                0 <= i < j < body.len() && #[trigger] body[i] == '.' && #[trigger] body[j] == '.';
            assert(is_digit(body[i]));
        }
    }
}

/// A number in the form `n / 10^k` is in its shortest form where it has no
/// digits behind the point or `n` does not end in a zero.
pub open spec fn is_shortest(n: int, k: nat) -> bool {
    k == 0 || n % 10 != 0
}

/// The shortest form denotes the same number, and is shortest.
pub proof fn lemma_reduced(m: nat, k: nat)
    ensures
        reduced(m, k).1 <= k,
        reduced(m, k).0 * pow10(k) == m * pow10(reduced(m, k).1),
        is_shortest(reduced(m, k).0 as int, reduced(m, k).1),
        is_shortest(-(reduced(m, k).0 as int), reduced(m, k).1),
    decreases k,
{
    if k > 0 && m % 10 == 0 {
        let h = m / 10;
        lemma_reduced(h, (k - 1) as nat);
        let n = reduced(h, (k - 1) as nat).0;
        let j = reduced(h, (k - 1) as nat).1;
        assert(m == 10 * h);
        assert(pow10(k) == 10 * pow10((k - 1) as nat));
        assert(n * (10 * pow10((k - 1) as nat)) == (10 * h) * pow10(j)) by (nonlinear_arith)
            requires
                n * pow10((k - 1) as nat) == h * pow10(j),
        ;
    } else {
        let n = m as int;
        if k > 0 && (-n) % 10 == 0 {
            vstd::arithmetic::div_mod::lemma_fundamental_div_mod(-n, 10);
            let q = (-n) / 10;
            assert(n == (-q) * 10);
            vstd::arithmetic::div_mod::lemma_mod_multiples_basic(-q, 10);
        }
    }
}

/// A number has one shortest form only.
pub proof fn lemma_shortest_unique(a: int, j: nat, b: int, k: nat)
    requires
        is_shortest(a, j),
        is_shortest(b, k),
        a * pow10(k) == b * pow10(j),
    ensures
        a == b,
        j == k,
{
    lemma_pow10_positive(j);
    lemma_pow10_positive(k);
    if j == k {
        assert(a == b) by (nonlinear_arith)
            requires
                a * pow10(k) == b * pow10(k),
                pow10(k) > 0,
        ;
    } else if j < k {
        lemma_longer_ends_in_zero(a, j, b, k);
    } else {
        lemma_longer_ends_in_zero(b, k, a, j);
    }
}

/// Of two forms of one number, the one with more digits behind the point has
/// a numerator that ends in a zero.
proof fn lemma_longer_ends_in_zero(a: int, j: nat, b: int, k: nat)
    requires
        j < k,
        a * pow10(k) == b * pow10(j),
    ensures
        b % 10 == 0,
{
    let more = (k - j - 1) as nat;
    lemma_pow10_positive(j);
    crate::digits::lemma_pow10_add((k - j) as nat, j);
    assert(pow10((k - j) as nat) == 10 * pow10(more));
    let c = a * pow10(more);
    assert(a * (10 * pow10(more) * pow10(j)) == (10 * c) * pow10(j)) by (nonlinear_arith)
        requires
            c == a * pow10(more),
    ;
    assert(b == c * 10) by (nonlinear_arith)
        requires
            (10 * c) * pow10(j) == b * pow10(j),
            pow10(j) > 0,
    ;
    vstd::arithmetic::div_mod::lemma_mod_multiples_basic(c, 10);
}

/// Digits with a digit other than zero among the last `k` keep a digit
/// behind the point in the shortest form.
proof fn lemma_reduced_keeps_fraction(digits: Seq<u8>, k: nat, p: int)
    requires
        all_digits(digits),
        digits.len() - k <= p < digits.len(),
        0 <= p,
        digits[p] != 0,
    ensures
        reduced(value(digits), k).1 > 0,
    decreases k,
{
    lemma_value_last(digits);
    if digits.last() == 0 {
        let front = digits.drop_last();
        assert(front[p] == digits[p]);
        assert(all_digits(front)) by {
            assert forall|i: int| 0 <= i < front.len() implies #[trigger] front[i] < 10 by {
                assert(front[i] == digits[i]);
            }
        }
        lemma_reduced_keeps_fraction(front, (k - 1) as nat, p);
    }
}

/// A digit behind a decimal point is among the last digits of the text, as
/// many as stand behind the point.
proof fn lemma_fraction_digit(s: Seq<char>, i: int) -> (p: int)
    requires
        0 <= i < s.len(),
        s.subrange(0, i).contains('.'),
        is_digit(s[i]),
        s[i] != '0',
    ensures
        digits_in(s).len() - fraction_len(s) <= p < digits_in(s).len(),
        0 <= p,
        digits_in(s)[p] != 0,
    decreases s.len(),
{
    let front = s.drop_last();
    lemma_digits_in_are_digits(front);
    if i == s.len() - 1 {
        assert(front =~= s.subrange(0, i));
        digits_in(s).len() - 1
    } else {
        assert(front.subrange(0, i) =~= s.subrange(0, i));
        let p = lemma_fraction_digit(front, i);
        let w = choose|w: int| 0 <= w < i && s.subrange(0, i)[w] == '.';
        assert(front[w] == '.');
        if is_digit(s.last()) {
            assert(digits_in(s)[p] == digits_in(front)[p]);
        }
        p
    }
}

/// A text of digits with one decimal point, and with a digit other than zero
/// somewhere behind the point, denotes a `Rational`.
pub proof fn lemma_fraction_literal(t: Seq<char>, i: int)
    requires
        literal_fault(after_sign(t)) is None,
        0 <= i < after_sign(t).len(),
        after_sign(t).subrange(0, i).contains('.'),
        is_digit(after_sign(t)[i]),
        after_sign(t)[i] != '0',
    ensures
        decimal_literal(t) matches Ok((kind, _, scale)) && kind == NumberKind::Rational && scale
            > 0,
{
    let body = after_sign(t);
    let w = choose|w: int| 0 <= w < i && body.subrange(0, i)[w] == '.';
    assert(body[w] == '.');
    assert(integer_literal(t) is None) by {
        if body.len() > 0 && only_digits(body) {
            assert(is_digit(body[w]));
        }
    }
    lemma_digits_in_are_digits(body);
    let p = lemma_fraction_digit(body, i);
    lemma_reduced_keeps_fraction(digits_in(body), fraction_len(body), p);
}

/// The double with the given bits is `a / 10^j`.
pub open spec fn float_denotes(bits: u64, a: int, j: nat) -> bool {
    let m = float_significand(bits) as int;
    let e = float_power(bits);
    let signed = if float_is_negative(bits) {
        -m
    } else {
        m
    };
    if e >= 0 {
        signed * power(2, e as nat) * pow10(j) == a
    } else {
        signed * pow10(j) == a * power(2, (-e) as nat)
    }
}

proof fn lemma_two_by_five(k: nat)
    ensures
        power(2, k) * power(5, k) == pow10(k),
    decreases k,
{
    if k > 0 {
        lemma_two_by_five((k - 1) as nat);
        let x = power(2, (k - 1) as nat);
        let y = power(5, (k - 1) as nat);
        assert(power(2, k) == 2 * x);
        assert(power(5, k) == 5 * y);
        assert(pow10(k) == 10 * pow10((k - 1) as nat));
        assert((2 * x) * (5 * y) == 10 * (x * y)) by (nonlinear_arith);
    } else {
        assert(power(2, 0) == 1 && power(5, 0) == 1 && pow10(0) == 1);
    }
}

/// A literal that denotes a `Rational`, and a double that is the same
/// number, give the same exact number: the same form, the same numerator
/// and as many digits behind the point.
pub proof fn lemma_float_equals_literal(t: Seq<char>, bits: u64)
    requires
        decimal_literal(t) matches Ok((kind, _, _)) && kind == NumberKind::Rational,
        float_is_finite(bits),
        float_denotes(bits, decimal_literal(t)->Ok_0.1, decimal_literal(t)->Ok_0.2),
    ensures
        Ok::<_, LiteralFault>(float_number(bits)) == decimal_literal(t),
{
    let a = decimal_literal(t)->Ok_0.1;
    let j = decimal_literal(t)->Ok_0.2;
    let body = after_sign(t);
    lemma_reduced(value(digits_in(body)), fraction_len(body));
    assert(is_shortest(a, j) && j > 0);
    let m = float_significand(bits) as int;
    let e = float_power(bits);
    let sign: int = if float_is_negative(bits) { -1 } else { 1 };
    let signed = if float_is_negative(bits) { -m } else { m };
    assert(signed == sign * m) by (nonlinear_arith)
        requires
            sign == 1 && signed == m || sign == -1 && signed == -m,
    ;
    lemma_pow10_positive(j);
    if e >= 0 {
        let x = sign * m * power(2, e as nat);
        assert(x * pow10(j) == a * pow10(0)) by (nonlinear_arith)
            requires
                (sign * m) * power(2, e as nat) * pow10(j) == a,
                x == sign * m * power(2, e as nat),
                pow10(0) == 1,
        ;
        lemma_longer_ends_in_zero(x, 0, a, j);
    } else {
        let k = (-e) as nat;
        let raw = float_significand(bits) * power(5, k);
        lemma_reduced(raw, k);
        let n = reduced(raw, k).0 as int;
        let short = reduced(raw, k).1;
        let f = sign * n;
        lemma_two_by_five(k);
        lemma_pow10_positive(k);
        let twos = power(2, k) as int;
        let fives = power(5, k) as int;
        let tj = pow10(j) as int;
        let tk = pow10(k) as int;
        let ts = pow10(short) as int;
        assert(sign * m * tj == a * twos);
        assert(n * tk == (m * fives) * ts);
        assert(twos * fives == tk);
        let g = sign * m * tj;
        assert((f * tj) * tk == (sign * tj) * (n * tk)) by (nonlinear_arith)
            requires
                f == sign * n,
        ;
        assert((sign * tj) * ((m * fives) * ts) == g * (fives * ts)) by (nonlinear_arith)
            requires
                g == sign * m * tj,
        ;
        assert((a * twos) * (fives * ts) == (a * ts) * (twos * fives)) by (nonlinear_arith);
        assert((f * tj) * tk == (a * ts) * tk);
        assert(f * tj == a * ts) by (nonlinear_arith)
            requires
                (f * tj) * tk == (a * ts) * tk,
                tk > 0,
        ;
        lemma_shortest_unique(f, short, a, j);
    }
}

} // verus!
