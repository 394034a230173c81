//! Tempo. The library file stores the time between two beats, in seconds;
//! what a listener wants is beats per minute.

use vstd::prelude::*;
use vstd::arithmetic::div_mod::lemma_fundamental_div_mod_converse;
use crate::decimal::{reads_infinity, spec_decimal, spec_infinity, Decimal, DecimalView, Shift};
use crate::digits::{
    decimal_digits, digits_value, divide_rounded, is_shortest, lemma_pow10_grows,
    lemma_pow10_positive, lemma_pow10_sum, lemma_rounded_is_nearest, lemma_rounded_scales,
    lemma_shortest_bounds,
    lemma_value_bound,
    lemma_shortest_is_decimal, lemma_value_push, lemma_value_single, pow10, round_half_even,
    shortest, with_zeros,
};
use crate::text::{opt_text, string_of};

verus! {

/// Sixty divided by the beat period, in tenths of a beat per minute, rounded
/// to the nearest tenth, halves to the even one.
pub open spec fn tempo_tenths(period: DecimalView) -> nat
    recommends
        period.mantissa > 0,
{
    round_half_even(600 * period.denominator(), period.numerator())
}

/// The period is below ten to the power of minus 324. No double-precision
/// float tells a number that small from zero, and a beat that short has no
/// tempo.
pub open spec fn too_short(period: DecimalView) -> bool {
    period.numerator() * pow10(324) < period.denominator()
}

/// The character that writes the digit `d`.
pub open spec fn digit_char(d: u8) -> char {
    (d + 48) as char
}

/// The characters that write the digits `s`.
pub open spec fn digit_chars(s: Seq<u8>) -> Seq<char> {
    Seq::new(s.len(), |i: int| digit_char(s[i]))
}

/// `tenths` written as a number with one decimal place.
pub open spec fn render_tenths(tenths: nat) -> Seq<char> {
    digit_chars(decimal_digits(tenths / 10)) + seq!['.'] + seq![digit_char((tenths % 10) as u8)]
}

/// The tempo that a stored beat period stands for. A numeral has a tempo
/// where it is greater than zero and not too short: sixty divided by it, to
/// one decimal place. Infinity without a minus sign has the tempo zero. No
/// other text has a tempo.
pub open spec fn spec_convert_bpm(text: Seq<char>) -> Option<Seq<char>> {
    match spec_decimal(text) {
        Some(period) => if period.is_positive() && !too_short(period) {
            Some(render_tenths(tempo_tenths(period)))
        } else {
            None
        },
        None => if spec_infinity(text) == Some(false) {
            Some(render_tenths(0))
        } else {
            None
        },
    }
}

/// The tempo lies no further than half a tenth from sixty divided by the
/// beat period: with the period `numerator / denominator`, the tenths times
/// the numerator differ from 600 times the denominator by at most half the
/// numerator.
pub proof fn lemma_tempo_is_nearest_tenth(period: DecimalView)
    requires
        period.mantissa > 0,
    ensures
        2 * (tempo_tenths(period) * period.numerator() - 600 * period.denominator())
            <= period.numerator(),
        2 * (600 * period.denominator() - tempo_tenths(period) * period.numerator())
            <= period.numerator(),
{
    lemma_numerator_positive(period);
    lemma_rounded_is_nearest(600 * period.denominator(), period.numerator());
}

/// A numeral that is not zero has a numerator that is not zero.
pub proof fn lemma_numerator_positive(period: DecimalView)
    requires
        period.mantissa > 0,
    ensures
        period.numerator() > 0,
        period.denominator() > 0,
{
    if period.scale < 0 {
        let p = pow10((-period.scale) as nat);
        lemma_pow10_positive((-period.scale) as nat);
        assert(period.mantissa * p >= 1) by (nonlinear_arith)
            requires
                period.mantissa >= 1,
                p >= 1,
        ;
    } else {
        lemma_pow10_positive(period.scale as nat);
    }
}

/// Which texts have a tempo: the numerals greater than zero and not too
/// short, and infinity without a minus sign.
pub proof fn lemma_tempo_needs_positive_period(text: Seq<char>)
    ensures
        spec_convert_bpm(text) is Some <==> (match spec_decimal(text) {
            Some(period) => period.is_positive() && !too_short(period),
            None => spec_infinity(text) == Some(false),
        }),
{
}

/// The tempo belongs to the number, not to the way it is written: two
/// numerals of the same size, with or without an exponent, with or without
/// zeros before or behind, have the same tempo, and are too short
/// together.
pub proof fn lemma_tempo_of_equal_numbers(a: DecimalView, b: DecimalView)
    requires
        a.mantissa > 0,
        b.mantissa > 0,
        a.numerator() * b.denominator() == b.numerator() * a.denominator(),
    ensures
        tempo_tenths(a) == tempo_tenths(b),
        too_short(a) == too_short(b),
{
    lemma_numerator_positive(a);
    lemma_numerator_positive(b);
    let (an, ad) = (a.numerator(), a.denominator());
    let (bn, bd) = (b.numerator(), b.denominator());
    lemma_rounded_scales(600 * ad, an, bn);
    lemma_rounded_scales(600 * bd, bn, an);
    assert(bn * (600 * ad) == an * (600 * bd)) by (nonlinear_arith)
        requires
            an * bd == bn * ad,
    ;
    assert(bn * an == an * bn) by (nonlinear_arith);
    let unit = pow10(324);
    assert((an * unit < ad) == (bn * unit < bd)) by (nonlinear_arith)
        requires
            an * bd == bn * ad,
            an > 0,
            bn > 0,
            ad > 0,
            bd > 0,
    ;
}

/// A period of at most `places` digits, divided by ten to a power with 324
/// places more, is too short.
proof fn lemma_too_short(m: nat, places: nat, k: nat)
    requires
        m < pow10(places),
        k >= places + 324,
    ensures
        m * pow10(324) < pow10(k),
{
    let unit = pow10(324);
    lemma_pow10_positive(324);
    lemma_pow10_sum(places, 324);
    lemma_pow10_grows(places + 324, k);
    assert(m * unit < pow10(places) * unit) by (nonlinear_arith)
        requires
            m < pow10(places),
            unit >= 1,
    ;
}

/// A period of no fewer than `places` digits, divided by ten to a power
/// with less than 324 places more, is not too short.
proof fn lemma_not_too_short(m: nat, places: nat, k: nat)
    requires
        places >= 1,
        pow10((places - 1) as nat) <= m,
        k < places + 324,
    ensures
        m * pow10(324) >= pow10(k),
{
    let unit = pow10(324);
    lemma_pow10_positive(324);
    lemma_pow10_sum((places - 1) as nat, 324);
    lemma_pow10_grows(k, (places - 1 + 324) as nat);
    assert(pow10((places - 1) as nat) * unit <= m * unit) by (nonlinear_arith)
        requires
            pow10((places - 1) as nat) <= m,
            unit >= 1,
    ;
}

/// Six hundred divided by more than twice as much rounds to zero.
proof fn lemma_slow_beat(m: nat, k: nat)
    requires
        m >= 1,
        k >= 4,
    ensures
        round_half_even(600, m * pow10(k)) == 0,
{
    reveal_with_fuel(pow10, 5);
    assert(pow10(4) == 10000);
    lemma_pow10_grows(4, k);
    assert(m * pow10(k) >= pow10(k)) by (nonlinear_arith)
        requires
            m >= 1,
    ;
    lemma_fundamental_div_mod_converse(600, (m * pow10(k)) as int, 0, 600);
}

/// The character that writes the digit `d`.
fn char_of_digit(d: u8) -> (c: char)
    requires
        d < 10,
    ensures
        c == digit_char(d),
{
    (d + 48) as char
}

/// Writes a number of tenths, given by its digits, with one decimal place.
pub fn write_tenths(tenths: &Vec<u8>) -> (r: String)
    requires
        is_shortest(tenths@),
    ensures
        r@ == render_tenths(digits_value(tenths@)),
{
    let n = tenths.len();
    let ghost front = tenths@.drop_last();
    let mut out: Vec<char> = Vec::new();
    if n == 1 {
        out.push('0');
        proof {
            lemma_value_single(tenths@[0]);
            assert(tenths@ =~= seq![tenths@[0]]);
            assert(out@ =~= digit_chars(decimal_digits(0)));
        }
    } else {
        let mut i: usize = 0;
        while i < n - 1
            invariant
                i <= n - 1,
                n == tenths.len(),
                is_shortest(tenths@),
                front == tenths@.drop_last(),
                out@ == digit_chars(front.take(i as int)),
            decreases n - 1 - i,
        {
            out.push(char_of_digit(tenths[i]));
            assert(out@ =~= digit_chars(front.take(i + 1)));
            i += 1;
        }
        proof {
            assert(front.take(n - 1) =~= front);
            assert(front[0] == tenths@[0]);
            lemma_shortest_is_decimal(front);
        }
    }
    proof {
        let v = digits_value(tenths@);
        assert(v == digits_value(front) * 10 + tenths@.last());
        assert(v / 10 == digits_value(front));
        assert(v % 10 == tenths@.last());
        if n == 1 {
            assert(front =~= Seq::<u8>::empty());
        }
    }
    let ghost whole = out@;
    out.push('.');
    out.push(char_of_digit(tenths[n - 1]));
    assert(out@ =~= whole + seq!['.'] + seq![digit_char(tenths@.last())]);
    string_of(&out)
}

/// The digits of zero tenths.
fn no_tenths() -> (r: Vec<u8>)
    ensures
        is_shortest(r@),
        digits_value(r@) == 0,
{
    shortest(&Vec::new())
}

/// The tenths of a beat per minute that the period `period` stands for,
/// in digits; none where the period is too short.
pub fn tenths_of(period: &Decimal) -> (r: Option<Vec<u8>>)
    requires
        period@.is_positive(),
    ensures
        match r {
            Some(tenths) => !too_short(period@) && is_shortest(tenths@) && digits_value(tenths@)
                == tempo_tenths(period@),
            None => too_short(period@),
        },
{
    let digits = period.digits();
    let ghost m = digits_value(digits@);
    let mut minute: Vec<u8> = Vec::new();
    minute.push(6);
    minute.push(0);
    minute.push(0);
    proof {
        assert(minute@ =~= seq![6u8].push(0).push(0));
        lemma_value_single(6);
        lemma_value_push(seq![6u8], 0);
        lemma_value_push(seq![6u8].push(0), 0);
        lemma_numerator_positive(period@);
        lemma_pow10_positive(324);
    }
    match period.shift() {
        Shift::Up(k) => {
            proof {
                assert(period@.numerator() * pow10(324) >= 1) by (nonlinear_arith)
                    requires
                        period@.numerator() >= 1,
                        pow10(324) >= 1,
                ;
            }
            if k >= 4 {
                proof {
                    lemma_slow_beat(m, k as nat);
                }
                return Some(no_tenths());
            }
            let slow = with_zeros(digits, k);
            Some(divide_rounded(&minute, &slow))
        },
        Shift::FarUp => {
            proof {
                assert(period@.numerator() * pow10(324) >= 1) by (nonlinear_arith)
                    requires
                        period@.numerator() >= 1,
                        pow10(324) >= 1,
                ;
                lemma_slow_beat(m, (-period@.scale) as nat);
            }
            Some(no_tenths())
        },
        Shift::Down(k) => {
            let bare = shortest(digits);
            let places = bare.len() as u128;
            if k >= places + 324 {
                proof {
                    lemma_shortest_bounds(bare@);
                    lemma_too_short(m, bare.len() as nat, k as nat);
                }
                return None;
            }
            proof {
                lemma_shortest_bounds(bare@);
                lemma_not_too_short(m, bare.len() as nat, k as nat);
            }
            let scaled = with_zeros(&minute, k);
            Some(divide_rounded(&scaled, digits))
        },
        Shift::FarDown => {
            proof {
                lemma_value_bound(digits@);
                lemma_too_short(m, digits.len() as nat, period@.scale as nat);
            }
            None
        },
    }
}

/// Turns a stored beat period into beats per minute, written with one
/// decimal place. A text that is no number, or a period that is not greater
/// than zero, has no tempo.
pub fn convert_virtualdj_bpm(bpm_str: &str) -> (r: Option<String>)
    ensures
        opt_text(r) == spec_convert_bpm(bpm_str@),
{
    match Decimal::parse(bpm_str) {
        Some(period) => {
            if !period.is_positive() {
                return None;
            }
            match tenths_of(&period) {
                Some(tenths) => Some(write_tenths(&tenths)),
                None => None,
            }
        },
        None => match reads_infinity(bpm_str) {
            Some(false) => Some(write_tenths(&no_tenths())),
            _ => None,
        },
    }
}

} // verus!
