//! Decimal numerals as the library file may write them: an optional sign,
//! digits with or without a point among them, and an optional exponent. A
//! numeral is kept exactly, digit for digit.

use vstd::prelude::*;
use vstd::arithmetic::div_mod::lemma_fundamental_div_mod_converse;
use crate::digits::{
    all_digits, digits_value, divide_rounded, greater, is_zero, lemma_pow10_grows,
    lemma_pow10_positive, lemma_value_bound, lemma_value_single, pow10, round_half_even,
    to_u128, to_u64_saturating, with_zeros,
};
use crate::text::{chars_of, stands_here};

verus! {

/// `c` is one of `0` to `9`.
pub open spec fn is_digit(c: char) -> bool {
    '0' <= c && c <= '9'
}

/// The digit that `c` stands for.
pub open spec fn digit_of(c: char) -> u8 {
    (c as u8 - '0' as u8) as u8
}

/// The digits that the characters of `s` stand for.
pub open spec fn digits_of(s: Seq<char>) -> Seq<u8> {
    Seq::new(s.len(), |i: int| digit_of(s[i]))
}

/// How many digits `s` starts with.
pub open spec fn digit_run(s: Seq<char>) -> nat
    decreases s.len(),
{
    if s.len() > 0 && is_digit(s[0]) {
        1 + digit_run(s.skip(1))
    } else {
        0
    }
}

/// What a numeral says: a sign, and `mantissa` divided by ten to the
/// `scale`, or, where the scale is negative, multiplied by ten to its
/// opposite.
pub struct DecimalView {
    pub negative: bool,
    pub mantissa: nat,
    pub scale: int,
}

impl DecimalView {
    /// The size of the number is `numerator` divided by `denominator`.
    pub open spec fn numerator(self) -> nat {
        if self.scale < 0 {
            self.mantissa * pow10((-self.scale) as nat)
        } else {
            self.mantissa
        }
    }

    /// The size of the number is `numerator` divided by `denominator`.
    pub open spec fn denominator(self) -> nat {
        if self.scale < 0 {
            1
        } else {
            pow10(self.scale as nat)
        }
    }

    /// The number is greater than zero.
    pub open spec fn is_positive(self) -> bool {
        !self.negative && self.mantissa > 0
    }

    /// The number is greater than one tenth.
    pub open spec fn exceeds_tenth(self) -> bool {
        !self.negative && 10 * self.numerator() > self.denominator()
    }

    /// The whole number nearest to the number's size, halves to the even
    /// one.
    pub open spec fn nearest_whole(self) -> nat {
        round_half_even(self.numerator(), self.denominator())
    }
}

/// `c` opens an exponent.
pub open spec fn is_exponent_mark(c: char) -> bool {
    c == 'e' || c == 'E'
}

/// The exponent that `t` writes behind the digits of a numeral: zero where
/// `t` is empty; else `e` or `E`, an optional `+` or `-`, and at least one
/// digit, with nothing behind them.
pub open spec fn spec_exponent(t: Seq<char>) -> Option<int> {
    let signed = t.len() > 1 && (t[1] == '-' || t[1] == '+');
    let digits = if signed {
        t.skip(2)
    } else {
        t.skip(1)
    };
    if t.len() == 0 {
        Some(0)
    } else if is_exponent_mark(t[0]) && digits.len() > 0 && digit_run(digits) == digits.len() {
        if signed && t[1] == '-' {
            Some(-(digits_value(digits_of(digits)) as int))
        } else {
            Some(digits_value(digits_of(digits)) as int)
        }
    } else {
        None
    }
}

/// The digits that `body` begins with: digits, optionally a point, and
/// optionally more digits. Gives the digits in one row, how many of them
/// stand after the point, and what of `body` follows them.
pub open spec fn spec_mantissa(body: Seq<char>) -> (Seq<char>, nat, Seq<char>) {
    let whole = body.take(digit_run(body) as int);
    let tail = body.skip(digit_run(body) as int);
    let behind = tail.skip(1);
    if tail.len() > 0 && tail[0] == '.' {
        (
            whole + behind.take(digit_run(behind) as int),
            digit_run(behind),
            behind.skip(digit_run(behind) as int),
        )
    } else {
        (whole, 0, tail)
    }
}

/// The numeral that `t` writes, if it writes one: an optional `+` or `-`;
/// then digits, optionally a point, and optionally more digits, with at
/// least one digit in all; then optionally an exponent. Nothing else may
/// stand before, between or after. The exponent moves the point: it is
/// taken off the scale.
pub open spec fn spec_decimal(t: Seq<char>) -> Option<DecimalView> {
    let signed = t.len() > 0 && (t[0] == '-' || t[0] == '+');
    let negative = signed && t[0] == '-';
    let body = if signed {
        t.skip(1)
    } else {
        t
    };
    let (digits, fraction, rest) = spec_mantissa(body);
    if digits.len() > 0 {
        match spec_exponent(rest) {
            Some(exponent) => Some(
                DecimalView {
                    negative,
                    mantissa: digits_value(digits_of(digits)),
                    scale: fraction - exponent,
                },
            ),
            None => None,
        }
    } else {
        None
    }
}

/// The letter `c` as a small letter, where it is one of `A` to `Z`; else
/// `c` itself.
pub open spec fn small_letter(c: char) -> char {
    if 'A' <= c && c <= 'Z' {
        ((c as u8) + 32) as char
    } else {
        c
    }
}

/// `t` with its letters `A` to `Z` made small.
pub open spec fn small_letters(t: Seq<char>) -> Seq<char> {
    Seq::new(t.len(), |i: int| small_letter(t[i]))
}

/// Whether `t` writes infinity, and then whether with a `-` before it: an
/// optional `+` or `-`, then `inf` or `infinity` in letters of either
/// case.
pub open spec fn spec_infinity(t: Seq<char>) -> Option<bool> {
    let signed = t.len() > 0 && (t[0] == '-' || t[0] == '+');
    let body = if signed {
        t.skip(1)
    } else {
        t
    };
    if small_letters(body) == "inf"@ || small_letters(body) == "infinity"@ {
        Some(signed && t[0] == '-')
    } else {
        None
    }
}

/// A run of `k` digits followed by the end or by something else is a digit
/// run of exactly `k`.
pub proof fn lemma_digit_run_is(s: Seq<char>, k: int)
    requires
        0 <= k <= s.len(),
        forall|i: int| 0 <= i < k ==> is_digit(#[trigger] s[i]),
        k < s.len() ==> !is_digit(s[k]),
    ensures
        digit_run(s) == k,
    decreases s.len(),
{
    if k > 0 {
        let rest = s.skip(1);
        assert(is_digit(s[0]));
        assert forall|i: int| 0 <= i < k - 1 implies is_digit(#[trigger] rest[i]) by {
            assert(rest[i] == s[i + 1]);
        }
        if k - 1 < rest.len() {
            assert(rest[k - 1] == s[k]);
        }
        lemma_digit_run_is(rest, k - 1);
    }
}

/// A decimal numeral, kept digit for digit: the digits before and after
/// the point in one row, how many of them stand after the point, and the
/// exponent with its sign.
pub struct Decimal {
    negative: bool,
    digits: Vec<u8>,
    fraction: usize,
    exponent_negative: bool,
    exponent: Vec<u8>,
}

impl View for Decimal {
    type V = DecimalView;

    closed spec fn view(&self) -> DecimalView {
        DecimalView {
            negative: self.negative,
            mantissa: digits_value(self.digits@),
            scale: if self.exponent_negative {
                self.fraction + digits_value(self.exponent@)
            } else {
                self.fraction - digits_value(self.exponent@)
            },
        }
    }
}

/// How far, and which way, the digits of a numeral are from its size.
pub enum Shift {
    /// The size is the digits times ten to this power, which is at least
    /// one.
    Up(u128),
    /// The size is the digits divided by ten to this power.
    Down(u128),
    /// The size is the digits times a power of ten beyond those that `Up`
    /// can hold.
    FarUp,
    /// The size is the digits divided by a power of ten beyond those that
    /// `Down` can hold.
    FarDown,
}

/// Whether `c` is a digit.
fn is_digit_char(c: char) -> (r: bool)
    ensures
        r == is_digit(c),
{
    '0' <= c && c <= '9'
}

/// The digit that `c` stands for.
fn digit_value(c: char) -> (d: u8)
    requires
        is_digit(c),
    ensures
        d == digit_of(c),
        d < 10,
{
    c as u8 - '0' as u8
}

/// Reads the digits that stand in `chars` from `from` on, up to the first
/// character that is none, and appends them to `digits`.
pub fn scan_digits(chars: &Vec<char>, from: usize, digits: &mut Vec<u8>) -> (end: usize)
    requires
        from <= chars.len(),
        all_digits(old(digits)@),
    ensures
        from <= end <= chars.len(),
        end - from == digit_run(chars@.skip(from as int)),
        final(digits)@ == old(digits)@ + digits_of(chars@.subrange(from as int, end as int)),
        all_digits(final(digits)@),
{
    let ghost before = digits@;
    let ghost rest = chars@.skip(from as int);
    let mut pos: usize = from;
    assert(digits@ =~= before + digits_of(chars@.subrange(from as int, pos as int)));
    while pos < chars.len() && is_digit_char(chars[pos])
        invariant
            from <= pos <= chars.len(),
            rest == chars@.skip(from as int),
            all_digits(digits@),
            digits@ == before + digits_of(chars@.subrange(from as int, pos as int)),
            forall|i: int| 0 <= i < pos - from ==> is_digit(#[trigger] rest[i]),
        decreases chars.len() - pos,
    {
        let d = digit_value(chars[pos]);
        digits.push(d);
        assert(rest[pos - from] == chars@[pos as int]);
        assert(digits@ =~= before + digits_of(chars@.subrange(from as int, pos + 1)));
        pos += 1;
    }
    proof {
        if pos < chars.len() {
            assert(rest[pos - from] == chars@[pos as int]);
        }
        lemma_digit_run_is(rest, pos - from);
    }
    pos
}

/// Reads the digits of a numeral from `chars` at `from`: the digits, how
/// many of them stand after the point, and where they end.
fn scan_mantissa(chars: &Vec<char>, from: usize) -> (r: (Vec<u8>, usize, usize))
    requires
        from <= chars.len(),
    ensures
        all_digits(r.0@),
        r.0@ == digits_of(spec_mantissa(chars@.skip(from as int)).0),
        r.1 == spec_mantissa(chars@.skip(from as int)).1,
        r.1 <= r.0.len(),
        r.2 <= chars.len(),
        chars@.skip(r.2 as int) == spec_mantissa(chars@.skip(from as int)).2,
{
    let n = chars.len();
    let ghost body = chars@.skip(from as int);
    let mut digits: Vec<u8> = Vec::new();
    let pos = scan_digits(chars, from, &mut digits);
    let ghost whole = body.take(pos - from);
    let ghost tail = body.skip(pos - from);
    assert(whole =~= chars@.subrange(from as int, pos as int));
    assert(tail =~= chars@.skip(pos as int));
    assert(digits@ =~= digits_of(whole));
    if pos < n {
        assert(tail[0] == chars@[pos as int]);
        if chars[pos] == '.' {
            let ghost behind = tail.skip(1);
            assert(behind =~= chars@.skip(pos + 1));
            let end = scan_digits(chars, pos + 1, &mut digits);
            let fraction = end - (pos + 1);
            assert(behind.take(fraction as int) =~= chars@.subrange(pos + 1, end as int));
            assert(behind.skip(fraction as int) =~= chars@.skip(end as int));
            assert(digits@ =~= digits_of(whole + behind.take(fraction as int)));
            return (digits, fraction, end);
        }
    }
    (digits, 0, pos)
}

/// Reads an exponent from `chars` at `from`: whether it is negative, and
/// its digits.
fn scan_exponent(chars: &Vec<char>, from: usize) -> (r: Option<(bool, Vec<u8>)>)
    requires
        from <= chars.len(),
    ensures
        match r {
            Some((negative, digits)) => all_digits(digits@) && spec_exponent(
                chars@.skip(from as int),
            ) == Some(
                if negative {
                    -(digits_value(digits@) as int)
                } else {
                    digits_value(digits@) as int
                },
            ),
            None => spec_exponent(chars@.skip(from as int)) is None,
        },
{
    let n = chars.len();
    let ghost rest = chars@.skip(from as int);
    let mut digits: Vec<u8> = Vec::new();
    if from == n {
        assert(digits_value(digits@) == 0);
        return Some((false, digits));
    }
    assert(rest[0] == chars@[from as int]);
    if chars[from] != 'e' && chars[from] != 'E' {
        return None;
    }
    let mut first = from + 1;
    let mut negative = false;
    if first < n {
        assert(rest[1] == chars@[first as int]);
        if chars[first] == '-' || chars[first] == '+' {
            negative = chars[first] == '-';
            first = first + 1;
        }
    }
    assert(rest.skip(first - from) =~= chars@.skip(first as int));
    let end = scan_digits(chars, first, &mut digits);
    if end != n || end == first {
        return None;
    }
    assert(chars@.subrange(first as int, end as int) =~= chars@.skip(first as int));
    Some((negative, digits))
}

impl Decimal {
    /// There is at least one digit, and no more digits stand after the
    /// point than there are.
    #[verifier::type_invariant]
    spec fn well_formed(&self) -> bool {
        &&& all_digits(self.digits@)
        &&& all_digits(self.exponent@)
        &&& self.digits.len() >= 1
        &&& self.fraction <= self.digits.len()
    }

    /// Reads a numeral. Anything that is not one, such as an empty text, a
    /// text with spaces, or a word, gives `None`.
    pub fn parse(text: &str) -> (r: Option<Decimal>)
        ensures
            match r {
                Some(d) => spec_decimal(text@) == Some(d@),
                None => spec_decimal(text@) is None,
            },
    {
        let chars = chars_of(text);
        let mut negative = false;
        let mut start: usize = 0;
        if chars.len() > 0 && (chars[0] == '-' || chars[0] == '+') {
            negative = chars[0] == '-';
            start = 1;
        }
        assert(chars@.skip(0) =~= chars@);
        let (digits, fraction, end) = scan_mantissa(&chars, start);
        if digits.len() == 0 {
            return None;
        }
        match scan_exponent(&chars, end) {
            Some((exponent_negative, exponent)) => Some(
                Decimal { negative, digits, fraction, exponent_negative, exponent },
            ),
            None => None,
        }
    }

    /// Whether the numeral is greater than zero.
    pub fn is_positive(&self) -> (r: bool)
        ensures
            r == self@.is_positive(),
    {
        proof {
            use_type_invariant(self);
        }
        !self.negative && !is_zero(&self.digits)
    }

    /// How far, and which way, the digits are from the size of the numeral.
    pub fn shift(&self) -> (r: Shift)
        ensures
            match r {
                Shift::Up(k) => k >= 1 && self@.scale == -(k as int),
                Shift::Down(k) => self@.scale == k as int,
                Shift::FarUp => self@.scale < -(u64::MAX as int),
                Shift::FarDown => self@.scale > u128::MAX as int,
            },
    {
        proof {
            use_type_invariant(self);
        }
        let behind = self.fraction as u128;
        match to_u128(&self.exponent) {
            None => {
                if self.exponent_negative {
                    Shift::FarDown
                } else {
                    Shift::FarUp
                }
            },
            Some(exponent) => {
                if self.exponent_negative {
                    if exponent > u128::MAX - behind {
                        Shift::FarDown
                    } else {
                        Shift::Down(behind + exponent)
                    }
                } else if exponent > behind {
                    Shift::Up(exponent - behind)
                } else {
                    Shift::Down(behind - exponent)
                }
            },
        }
    }

    /// Whether the numeral is greater than one tenth.
    pub fn exceeds_tenth(&self) -> (r: bool)
        ensures
            r == self@.exceeds_tenth(),
    {
        proof {
            use_type_invariant(self);
            lemma_value_bound(self.digits@);
        }
        if self.negative {
            return false;
        }
        let ghost m = digits_value(self.digits@);
        if is_zero(&self.digits) {
            proof {
                lemma_pow10_positive(self@.denominator() as nat);
                if self@.scale < 0 {
                    let p = pow10((-self@.scale) as nat);
                    assert(m * p == 0) by (nonlinear_arith)
                        requires
                            m == 0,
                    ;
                } else {
                    lemma_pow10_positive(self@.scale as nat);
                }
            }
            return false;
        }
        let places = self.digits.len() as u128;
        match self.shift() {
            Shift::Up(_) | Shift::FarUp => {
                proof {
                    let p = pow10((-self@.scale) as nat);
                    lemma_pow10_positive((-self@.scale) as nat);
                    assert(m * p >= 1) by (nonlinear_arith)
                        requires
                            m >= 1,
                            p >= 1,
                    ;
                }
                true
            },
            Shift::FarDown => {
                proof {
                    lemma_pow10_grows((self.digits.len() + 1) as nat, self@.scale as nat);
                }
                false
            },
            Shift::Down(k) => {
                if k > places {
                    proof {
                        lemma_pow10_grows((self.digits.len() + 1) as nat, k as nat);
                    }
                    return false;
                }
                let tenfold = with_zeros(&self.digits, 1);
                let unit = power_of_ten(k);
                assert(pow10(1) == 10) by {
                    assert(pow10(0) == 1);
                }
                greater(&tenfold, &unit)
            },
        }
    }

    /// The size of the numeral rounded to the nearest whole number, halves to
    /// the even one; the largest `u64` where that is larger still.
    pub fn nearest_whole(&self) -> (r: u64)
        ensures
            self@.nearest_whole() <= u64::MAX ==> r == self@.nearest_whole(),
            self@.nearest_whole() > u64::MAX ==> r == u64::MAX,
    {
        proof {
            use_type_invariant(self);
            lemma_value_bound(self.digits@);
        }
        let ghost m = digits_value(self.digits@);
        let ghost den = self@.denominator();
        proof {
            if self@.scale >= 0 {
                lemma_pow10_positive(self@.scale as nat);
            }
        }
        if is_zero(&self.digits) {
            proof {
                if self@.scale < 0 {
                    let p = pow10((-self@.scale) as nat);
                    assert(m * p == 0) by (nonlinear_arith)
                        requires
                            m == 0,
                    ;
                }
                lemma_fundamental_div_mod_converse(0, den as int, 0, 0);
            }
            return 0;
        }
        let places = self.digits.len() as u128;
        match self.shift() {
            Shift::Up(k) => {
                if k >= 20 {
                    proof {
                        lemma_beyond_a_word(m, k as nat);
                    }
                    return u64::MAX;
                }
                let whole = with_zeros(&self.digits, k);
                to_u64_saturating(&whole)
            },
            Shift::FarUp => {
                proof {
                    lemma_beyond_a_word(m, (-self@.scale) as nat);
                }
                u64::MAX
            },
            Shift::FarDown => {
                proof {
                    lemma_rounds_to_zero(m, self.digits.len() as nat, self@.scale as nat);
                }
                0
            },
            Shift::Down(k) => {
                if k > places {
                    proof {
                        lemma_rounds_to_zero(m, self.digits.len() as nat, k as nat);
                    }
                    return 0;
                }
                let unit = power_of_ten(k);
                let whole = divide_rounded(&self.digits, &unit);
                to_u64_saturating(&whole)
            },
        }
    }

    /// The digits of the numeral, those before and those after the point in
    /// one row.
    pub fn digits(&self) -> (r: &Vec<u8>)
        ensures
            all_digits(r@),
            r.len() >= 1,
            digits_value(r@) == self@.mantissa,
    {
        proof {
            use_type_invariant(self);
        }
        &self.digits
    }
}

/// A number that is not zero, times ten to a power of twenty or more, is
/// more than a `u64` holds.
proof fn lemma_beyond_a_word(m: nat, k: nat)
    requires
        m >= 1,
        k >= 20,
    ensures
        m * pow10(k) > u64::MAX,
{
    reveal_with_fuel(pow10, 21);
    assert(pow10(20) == 100000000000000000000nat);
    lemma_pow10_grows(20, k);
    assert(m * pow10(k) >= pow10(k)) by (nonlinear_arith)
        requires
            m >= 1,
    ;
}

/// A number of `places` digits, divided by ten to a power greater than
/// `places`, is less than a tenth, and rounds to zero.
proof fn lemma_rounds_to_zero(m: nat, places: nat, k: nat)
    requires
        m < pow10(places),
        k > places,
    ensures
        round_half_even(m, pow10(k)) == 0,
{
    lemma_pow10_grows(places + 1, k);
    assert(pow10(places + 1) == 10 * pow10(places));
    lemma_fundamental_div_mod_converse(m as int, pow10(k) as int, 0, m as int);
}

/// The digits of ten to the `n`.
pub fn power_of_ten(n: u128) -> (r: Vec<u8>)
    ensures
        all_digits(r@),
        digits_value(r@) == pow10(n as nat),
{
    let mut one: Vec<u8> = Vec::new();
    one.push(1);
    proof {
        assert(one@ =~= seq![1u8]);
        lemma_value_single(1);
        assert(1 * pow10(n as nat) == pow10(n as nat)) by (nonlinear_arith);
    }
    with_zeros(&one, n)
}

/// `c` as a small letter.
fn small_letter_of(c: char) -> (r: char)
    ensures
        r == small_letter(c),
{
    if 'A' <= c && c <= 'Z' {
        ((c as u8) + 32) as char
    } else {
        c
    }
}

/// Whether `text` writes infinity, and then whether with a `-` before it.
pub fn reads_infinity(text: &str) -> (r: Option<bool>)
    ensures
        r == spec_infinity(text@),
{
    let chars = chars_of(text);
    let n = chars.len();
    let mut negative = false;
    let mut start: usize = 0;
    if n > 0 && (chars[0] == '-' || chars[0] == '+') {
        negative = chars[0] == '-';
        start = 1;
    }
    let ghost body = chars@.skip(start as int);
    assert(chars@.skip(0) =~= chars@);
    let mut small: Vec<char> = Vec::new();
    let mut i: usize = start;
    while i < n
        invariant
            start <= i <= n,
            n == chars.len(),
            body == chars@.skip(start as int),
            small@ == small_letters(body.take(i - start)),
        decreases n - i,
    {
        small.push(small_letter_of(chars[i]));
        assert(body[i - start] == chars@[i as int]);
        assert(small@ =~= small_letters(body.take(i + 1 - start)));
        i += 1;
    }
    assert(body.take(n - start) =~= body);
    let short = chars_of("inf");
    let long = chars_of("infinity");
    let found = (small.len() == short.len() && stands_here(&small, &short, 0)) || (small.len()
        == long.len() && stands_here(&small, &long, 0));
    proof {
        if small.len() == short.len() {
            assert(small@.subrange(0, short.len() as int) =~= small@);
        }
        if small.len() == long.len() {
            assert(small@.subrange(0, long.len() as int) =~= small@);
        }
    }
    if found {
        Some(negative)
    } else {
        None
    }
}

} // verus!
