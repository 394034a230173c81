//! Natural numbers of any size, written as decimal digits with the most
//! significant digit first. Attribute values carry as many digits as their
//! writer liked; nothing here rounds them to a machine word.

use vstd::prelude::*;
use vstd::arithmetic::div_mod::lemma_fundamental_div_mod_converse;

verus! {

/// Every element of `s` is a decimal digit.
pub open spec fn all_digits(s: Seq<u8>) -> bool {
    forall|i: int| 0 <= i < s.len() ==> #[trigger] s[i] < 10
}

/// The number that the digits `s` write, most significant digit first.
pub open spec fn digits_value(s: Seq<u8>) -> nat
    decreases s.len(),
{
    if s.len() == 0 {
        0
    } else {
        digits_value(s.drop_last()) * 10 + s.last() as nat
    }
}

/// Ten to the power `n`.
pub open spec fn pow10(n: nat) -> nat
    decreases n,
{
    if n == 0 {
        1
    } else {
        10 * pow10((n - 1) as nat)
    }
}

/// The shortest way to write `n`: no leading zero, and `0` for zero.
pub open spec fn decimal_digits(n: nat) -> Seq<u8>
    decreases n,
{
    if n < 10 {
        seq![n as u8]
    } else {
        decimal_digits(n / 10).push((n % 10) as u8)
    }
}

/// `s` is the shortest way to write its value.
pub open spec fn is_shortest(s: Seq<u8>) -> bool {
    &&& all_digits(s)
    &&& s.len() >= 1
    &&& (s.len() == 1 || s[0] != 0)
}

/// `n` divided by `d`, rounded to the nearest whole number; a result exactly
/// halfway between two whole numbers goes to the even one.
pub open spec fn round_half_even(n: nat, d: nat) -> nat
    recommends
        d > 0,
{
    let q = n / d;
    let r = n % d;
    if 2 * r > d || (2 * r == d && q % 2 == 1) {
        q + 1
    } else {
        q
    }
}

/// The rounded quotient is a nearest whole number: it lies no further than
/// a half from `n` divided by `d`.
pub proof fn lemma_rounded_is_nearest(n: nat, d: nat)
    requires
        d > 0,
    ensures
        2 * (round_half_even(n, d) * d - n) <= d,
        2 * (n - round_half_even(n, d) * d) <= d,
{
    let q = n / d;
    let r = n % d;
    vstd::arithmetic::div_mod::lemma_fundamental_div_mod(n as int, d as int);
    vstd::arithmetic::div_mod::lemma_mod_pos_bound(n as int, d as int);
    assert((q + 1) * d == q * d + d) by (nonlinear_arith);
    assert(q * d == d * q) by (nonlinear_arith);
}

/// The rounded quotient is that of the fraction, however it is written:
/// it stays as it is when both parts are multiplied by the same number.
pub proof fn lemma_rounded_scales(n: nat, d: nat, c: nat)
    requires
        d > 0,
        c > 0,
    ensures
        round_half_even(c * n, c * d) == round_half_even(n, d),
{
    let q = n / d;
    let r = n % d;
    vstd::arithmetic::div_mod::lemma_fundamental_div_mod(n as int, d as int);
    vstd::arithmetic::div_mod::lemma_mod_pos_bound(n as int, d as int);
    assert(c * d > 0) by (nonlinear_arith)
        requires
            c > 0,
            d > 0,
    ;
    assert(c * n == q * (c * d) + c * r) by (nonlinear_arith)
        requires
            n == d * q + r,
    ;
    assert(0 <= c * r < c * d) by (nonlinear_arith)
        requires
            0 <= r < d,
            c > 0,
    ;
    lemma_fundamental_div_mod_converse((c * n) as int, (c * d) as int, q as int, (c * r) as int);
    assert((2 * (c * r) > c * d) == (2 * r > d)) by (nonlinear_arith)
        requires
            c > 0,
    ;
    assert((2 * (c * r) == c * d) == (2 * r == d)) by (nonlinear_arith)
        requires
            c > 0,
    ;
}

/// Of two whole numbers that lie equally near, the rounded quotient is the
/// even one.
pub proof fn lemma_rounded_half_is_even(n: nat, d: nat)
    requires
        d > 0,
        2 * (n % d) == d,
    ensures
        round_half_even(n, d) % 2 == 0,
{
}

/// A power of ten is at least one.
pub proof fn lemma_pow10_positive(n: nat)
    ensures
        pow10(n) >= 1,
    decreases n,
{
    if n > 0 {
        lemma_pow10_positive((n - 1) as nat);
    }
}

/// Ten to a sum is the product of the powers.
pub proof fn lemma_pow10_sum(a: nat, b: nat)
    ensures
        pow10(a + b) == pow10(a) * pow10(b),
    decreases b,
{
    if b == 0 {
        assert(pow10(0) == 1);
        assert(pow10(a) * 1 == pow10(a)) by (nonlinear_arith);
    } else {
        lemma_pow10_sum(a, (b - 1) as nat);
        assert(pow10(a + b) == 10 * pow10((a + b - 1) as nat));
        assert(pow10(b) == 10 * pow10((b - 1) as nat));
        assert(10 * (pow10(a) * pow10((b - 1) as nat)) == pow10(a) * (10 * pow10((b - 1) as nat)))
            by (nonlinear_arith);
    }
}

/// A greater power of ten is a greater number.
pub proof fn lemma_pow10_grows(a: nat, b: nat)
    requires
        a <= b,
    ensures
        pow10(a) <= pow10(b),
    decreases b - a,
{
    if a < b {
        lemma_pow10_grows(a, (b - 1) as nat);
    }
}

/// A number written without a leading zero, and not zero, lies between the
/// powers of ten that its length gives.
pub proof fn lemma_shortest_bounds(s: Seq<u8>)
    requires
        is_shortest(s),
        digits_value(s) > 0,
    ensures
        pow10((s.len() - 1) as nat) <= digits_value(s) < pow10(s.len()),
{
    lemma_value_bound(s);
    assert(s.skip(0) =~= s);
    lemma_value_skip_step(s, 0);
    if s.len() == 1 {
        assert(pow10(0) == 1);
    } else {
        let p = pow10((s.len() - 1) as nat);
        assert(s[0] as nat * p >= p) by (nonlinear_arith)
            requires
                s[0] >= 1,
        ;
    }
}

/// One more digit at the end: ten times the value, and the digit.
pub proof fn lemma_value_push(s: Seq<u8>, d: u8)
    ensures
        digits_value(s.push(d)) == digits_value(s) * 10 + d as nat,
{
    assert(s.push(d).drop_last() =~= s);
}

/// One digit writes itself.
pub proof fn lemma_value_single(d: u8)
    ensures
        digits_value(seq![d]) == d as nat,
{
    assert(seq![d].drop_last() =~= Seq::<u8>::empty());
    assert(digits_value(Seq::<u8>::empty()) == 0);
}

/// A number of `k` digits is below ten to the `k`.
pub proof fn lemma_value_bound(s: Seq<u8>)
    requires
        all_digits(s),
    ensures
        digits_value(s) < pow10(s.len()),
    decreases s.len(),
{
    if s.len() > 0 {
        lemma_value_bound(s.drop_last());
    }
}

/// Cutting the digits at `i` splits the value at the matching power of ten.
pub proof fn lemma_value_split(s: Seq<u8>, i: int)
    requires
        0 <= i <= s.len(),
    ensures
        digits_value(s) == digits_value(s.take(i)) * pow10((s.len() - i) as nat) + digits_value(
            s.skip(i),
        ),
    decreases s.len(),
{
    if i == s.len() {
        assert(s.take(i) =~= s);
        assert(s.skip(i) =~= Seq::<u8>::empty());
        assert(pow10(0) == 1);
        assert(digits_value(s) * 1 == digits_value(s)) by (nonlinear_arith);
    } else {
        let front = s.drop_last();
        lemma_value_split(front, i);
        assert(front.take(i) =~= s.take(i));
        assert(front.skip(i) =~= s.skip(i).drop_last());
        assert(s.skip(i).last() == s.last());
        let p = pow10((front.len() - i) as nat);
        let a = digits_value(s.take(i));
        let b = digits_value(front.skip(i));
        assert(pow10((s.len() - i) as nat) == 10 * p);
        assert(digits_value(front) == a * p + b);
        assert(digits_value(s) == (a * p + b) * 10 + s.last() as nat);
        assert(digits_value(s.skip(i)) == b * 10 + s.last() as nat);
        assert((a * p + b) * 10 == a * (10 * p) + b * 10) by (nonlinear_arith);
    }
}

/// The value of the digits from `i` on, by the digit at `i` and the rest.
pub proof fn lemma_value_skip_step(s: Seq<u8>, i: int)
    requires
        0 <= i < s.len(),
    ensures
        digits_value(s.skip(i)) == s[i] as nat * pow10((s.len() - i - 1) as nat) + digits_value(
            s.skip(i + 1),
        ),
{
    let t = s.skip(i);
    lemma_value_split(t, 1);
    assert(t.take(1) =~= seq![s[i]]);
    lemma_value_single(s[i]);
    assert(t.skip(1) =~= s.skip(i + 1));
}

/// Digits that are all zero write zero, and only they do.
pub proof fn lemma_value_zero(s: Seq<u8>)
    requires
        all_digits(s),
    ensures
        digits_value(s) == 0 <==> (forall|i: int| 0 <= i < s.len() ==> s[i] == 0),
    decreases s.len(),
{
    if s.len() > 0 {
        let front = s.drop_last();
        lemma_value_zero(front);
        if digits_value(s) == 0 {
            assert forall|i: int| 0 <= i < s.len() implies s[i] == 0 by {
                if i < s.len() - 1 {
                    assert(front[i] == s[i]);
                }
            }
        }
        if forall|i: int| 0 <= i < s.len() ==> s[i] == 0 {
            assert forall|i: int| 0 <= i < front.len() implies front[i] == 0 by {
                assert(front[i] == s[i]);
            }
        }
    }
}

/// Of two numbers with as many digits, the one with the smaller digit at the
/// first place where they differ is the smaller.
pub proof fn lemma_first_difference(a: Seq<u8>, b: Seq<u8>, i: int)
    requires
        a.len() == b.len(),
        all_digits(a),
        all_digits(b),
        0 <= i < a.len(),
        a.take(i) == b.take(i),
        a[i] < b[i],
    ensures
        digits_value(a) < digits_value(b),
{
    let p = pow10((a.len() - i - 1) as nat);
    lemma_value_split(a, i + 1);
    lemma_value_split(b, i + 1);
    assert(a.take(i + 1) =~= a.take(i).push(a[i]));
    assert(b.take(i + 1) =~= b.take(i).push(b[i]));
    lemma_value_push(a.take(i), a[i]);
    lemma_value_push(b.take(i), b[i]);
    lemma_value_bound(a.skip(i + 1));
    let ha = digits_value(a.take(i + 1));
    let hb = digits_value(b.take(i + 1));
    assert(ha + 1 <= hb);
    assert((ha + 1) * p <= hb * p) by (nonlinear_arith)
        requires
            ha + 1 <= hb,
    ;
    assert((ha + 1) * p == ha * p + p) by (nonlinear_arith);
}

/// Digits without a leading zero are the shortest way to write their value.
pub proof fn lemma_shortest_is_decimal(s: Seq<u8>)
    requires
        is_shortest(s),
    ensures
        s == decimal_digits(digits_value(s)),
    decreases s.len(),
{
    if s.len() == 1 {
        assert(s =~= seq![s[0]]);
        lemma_value_single(s[0]);
    } else {
        let front = s.drop_last();
        assert(front[0] == s[0]);
        lemma_value_split(front, 1);
        assert(front.take(1) =~= seq![s[0]]);
        lemma_value_single(s[0]);
        lemma_pow10_positive((front.len() - 1) as nat);
        let p = pow10((front.len() - 1) as nat);
        assert(s[0] as nat * p >= 1) by (nonlinear_arith)
            requires
                s[0] >= 1,
                p >= 1,
        ;
        assert(digits_value(front) >= 1);
        let v = digits_value(s);
        assert(v == digits_value(front) * 10 + s.last() as nat);
        assert(v / 10 == digits_value(front));
        assert(v % 10 == s.last() as nat);
        lemma_shortest_is_decimal(front);
        assert(s =~= front.push(s.last()));
    }
}


/// Whether `a` is at least `b`, for two numbers written with as many digits.
pub fn at_least(a: &Vec<u8>, b: &Vec<u8>) -> (r: bool)
    requires
        a.len() == b.len(),
        all_digits(a@),
        all_digits(b@),
    ensures
        r == (digits_value(a@) >= digits_value(b@)),
{
    let mut i: usize = 0;
    while i < a.len()
        invariant
            i <= a.len(),
            a.len() == b.len(),
            all_digits(a@),
            all_digits(b@),
            a@.take(i as int) == b@.take(i as int),
        decreases a.len() - i,
    {
        if a[i] != b[i] {
            proof {
                if a[i as int] < b[i as int] {
                    lemma_first_difference(a@, b@, i as int);
                } else {
                    lemma_first_difference(b@, a@, i as int);
                }
            }
            return a[i] > b[i];
        }
        assert(a@.take(i + 1) =~= a@.take(i as int).push(a[i as int]));
        assert(b@.take(i + 1) =~= b@.take(i as int).push(b[i as int]));
        i += 1;
    }
    assert(a@ =~= a@.take(a.len() as int));
    assert(b@ =~= b@.take(b.len() as int));
    true
}

/// Takes `b` away from `a`, digit by digit from the right, with a borrow.
pub fn subtract(a: &mut Vec<u8>, b: &Vec<u8>)
    requires
        old(a).len() == b.len(),
        all_digits(old(a)@),
        all_digits(b@),
        digits_value(old(a)@) >= digits_value(b@),
    ensures
        final(a).len() == old(a).len(),
        all_digits(final(a)@),
        digits_value(final(a)@) == digits_value(old(a)@) - digits_value(b@),
{
    let ghost before = a@;
    let n = a.len();
    let mut i: usize = n;
    let mut borrow: u8 = 0;
    assert(a@.skip(n as int) =~= Seq::<u8>::empty());
    assert(b@.skip(n as int) =~= Seq::<u8>::empty());
    assert(pow10(0) == 1);
    while i > 0
        invariant
            i <= n,
            n == a.len(),
            n == b.len(),
            n == before.len(),
            borrow <= 1,
            all_digits(a@),
            all_digits(b@),
            all_digits(before),
            a@.take(i as int) == before.take(i as int),
            digits_value(a@.skip(i as int)) + digits_value(b@.skip(i as int)) == digits_value(
                before.skip(i as int),
            ) + borrow * pow10((n - i) as nat),
        decreases i,
    {
        let j = i - 1;
        let ghost prior = a@;
        let ghost carried = borrow;
        assert(a@[j as int] == a@.take(i as int)[j as int]);
        assert(before[j as int] == before.take(i as int)[j as int]);
        let x = a[j];
        let y = b[j] + borrow;
        let d: u8;
        if x >= y {
            d = x - y;
            borrow = 0;
        } else {
            d = x + 10 - y;
            borrow = 1;
        }
        a.set(j, d);
        proof {
            let p = pow10((n - i) as nat);
            lemma_value_skip_step(a@, j as int);
            lemma_value_skip_step(b@, j as int);
            lemma_value_skip_step(before, j as int);
            assert(a@.skip(i as int) =~= prior.skip(i as int));
            assert(a@.take(j as int) =~= before.take(j as int)) by {
                assert forall|k: int| 0 <= k < j implies a@[k] == before[k] by {
                    assert(prior[k] == prior.take(i as int)[k]);
                    assert(before[k] == before.take(i as int)[k]);
                }
            }
            assert(pow10((n - j) as nat) == 10 * p);
            let va = digits_value(prior.skip(i as int));
            let vb = digits_value(b@.skip(i as int));
            let vo = digits_value(before.skip(i as int));
            assert(d + b@[j as int] + carried == x + 10 * borrow);
            assert(d * p + va + (b@[j as int] * p + vb) == x * p + vo + borrow * (10 * p))
                by (nonlinear_arith)
                requires
                    va + vb == vo + carried * p,
                    d + b@[j as int] + carried == x + 10 * borrow,
            ;
            assert forall|k: int| 0 <= k < a@.len() implies #[trigger] a@[k] < 10 by {
                if k != j {
                    assert(a@[k] == prior[k]);
                }
            }
        }
        i = j;
    }
    proof {
        assert(a@.skip(0) =~= a@);
        assert(b@.skip(0) =~= b@);
        assert(before.skip(0) =~= before);
        lemma_value_bound(a@);
        assert(borrow * pow10(n as nat) == 0 || borrow * pow10(n as nat) == pow10(n as nat))
            by (nonlinear_arith)
            requires
                borrow == 0 || borrow == 1,
        ;
    }
}


/// Whether `v` writes zero.
pub fn is_zero(v: &Vec<u8>) -> (r: bool)
    requires
        all_digits(v@),
    ensures
        r == (digits_value(v@) == 0),
{
    let mut i: usize = 0;
    while i < v.len()
        invariant
            i <= v.len(),
            all_digits(v@),
            forall|k: int| 0 <= k < i ==> v@[k] == 0,
        decreases v.len() - i,
    {
        if v[i] != 0 {
            proof {
                lemma_value_zero(v@);
            }
            return false;
        }
        i += 1;
    }
    proof {
        lemma_value_zero(v@);
    }
    true
}

/// The digits of `head` followed by `count` zeros: `head` times ten to the
/// `count`.
pub fn with_zeros(head: &Vec<u8>, count: u128) -> (r: Vec<u8>)
    requires
        all_digits(head@),
    ensures
        all_digits(r@),
        r.len() == head.len() + count,
        digits_value(r@) == digits_value(head@) * pow10(count as nat),
{
    let mut r: Vec<u8> = Vec::new();
    let mut i: usize = 0;
    while i < head.len()
        invariant
            i <= head.len(),
            r@ == head@.take(i as int),
        decreases head.len() - i,
    {
        r.push(head[i]);
        assert(r@ =~= head@.take(i + 1));
        i += 1;
    }
    assert(r@ =~= head@);
    let mut k: u128 = 0;
    assert(pow10(0) == 1);
    assert(digits_value(head@) * 1 == digits_value(head@)) by (nonlinear_arith);
    while k < count
        invariant
            k <= count,
            all_digits(r@),
            r.len() == head.len() + k,
            digits_value(r@) == digits_value(head@) * pow10(k as nat),
        decreases count - k,
    {
        proof {
            lemma_value_push(r@, 0);
            assert(pow10((k + 1) as nat) == 10 * pow10(k as nat));
            assert(digits_value(head@) * pow10(k as nat) * 10 == digits_value(head@) * (10 * pow10(
                k as nat,
            ))) by (nonlinear_arith);
        }
        r.push(0);
        k += 1;
    }
    r
}

/// Long division, one digit of `num` at a time: the quotient, with as many
/// digits as `num`, and the remainder.
pub fn divide(num: &Vec<u8>, den: &Vec<u8>) -> (r: (Vec<u8>, Vec<u8>))
    requires
        all_digits(num@),
        all_digits(den@),
        digits_value(den@) > 0,
    ensures
        all_digits(r.0@),
        all_digits(r.1@),
        r.0.len() == num.len(),
        digits_value(r.0@) == digits_value(num@) / digits_value(den@),
        digits_value(r.1@) == digits_value(num@) % digits_value(den@),
{
    let ghost m = digits_value(den@);
    // The divisor and the running remainder, both with one digit more than
    // `den`, so that ten times a remainder still fits.
    let mut wide: Vec<u8> = Vec::new();
    let mut rem: Vec<u8> = Vec::new();
    wide.push(0);
    rem.push(0);
    let mut i: usize = 0;
    proof {
        lemma_value_single(0);
    }
    while i < den.len()
        invariant
            i <= den.len(),
            wide@ == seq![0u8] + den@.take(i as int),
            rem.len() == i + 1,
            all_digits(den@),
            forall|k: int| 0 <= k < rem.len() ==> rem@[k] == 0,
        decreases den.len() - i,
    {
        wide.push(den[i]);
        rem.push(0);
        assert(wide@ =~= seq![0u8] + den@.take(i + 1));
        i += 1;
    }
    proof {
        assert(den@.take(den.len() as int) =~= den@);
        lemma_value_split(wide@, 1);
        assert(wide@.take(1) =~= seq![0u8]);
        assert(wide@.skip(1) =~= den@);
        assert(digits_value(wide@) == m) by (nonlinear_arith)
            requires
                digits_value(wide@) == 0 * pow10((wide@.len() - 1) as nat) + m,
        ;
        lemma_value_zero(rem@);
        lemma_value_bound(den@);
        assert(num@.take(0) =~= Seq::<u8>::empty());
        assert(digits_value(Seq::<u8>::empty()) * m == 0) by (nonlinear_arith)
            requires
                digits_value(Seq::<u8>::empty()) == 0,
        ;
    }
    let mut quot: Vec<u8> = Vec::new();
    let mut k: usize = 0;
    while k < num.len()
        invariant
            k <= num.len(),
            quot.len() == k,
            rem.len() == wide.len(),
            wide.len() == den.len() + 1,
            all_digits(num@),
            all_digits(wide@),
            all_digits(rem@),
            all_digits(quot@),
            m == digits_value(wide@),
            m > 0,
            m < pow10(den.len() as nat),
            digits_value(rem@) < m,
            digits_value(num@.take(k as int)) == digits_value(quot@) * m + digits_value(rem@),
        decreases num.len() - k,
    {
        let ghost kept = digits_value(rem@);
        let ghost shifted = rem@;
        proof {
            assert(rem@.skip(0) =~= rem@);
            lemma_value_skip_step(rem@, 0);
            let p = pow10(den.len() as nat);
            if rem@[0] != 0 {
                assert(rem@[0] * p >= p) by (nonlinear_arith)
                    requires
                        rem@[0] >= 1,
                ;
            }
            assert(rem@[0] == 0);
            assert(rem@[0] * p == 0) by (nonlinear_arith)
                requires
                    rem@[0] == 0,
            ;
            lemma_value_push(rem@.skip(1), num@[k as int]);
            assert(rem@.remove(0) =~= rem@.skip(1));
        }
        rem.remove(0);
        rem.push(num[k]);
        let ghost target = kept * 10 + num@[k as int];
        assert(digits_value(rem@) == target);
        assert(target < 10 * m);
        let mut q: u8 = 0;
        assert(q * m == 0) by (nonlinear_arith)
            requires
                q == 0,
        ;
        while at_least(&rem, &wide)
            invariant
                rem.len() == wide.len(),
                all_digits(wide@),
                all_digits(rem@),
                m == digits_value(wide@),
                m > 0,
                q <= 9,
                target < 10 * m,
                digits_value(rem@) + q * m == target,
            decreases digits_value(rem@),
        {
            proof {
                assert(q < 9) by (nonlinear_arith)
                    requires
                        digits_value(rem@) >= m,
                        digits_value(rem@) + q * m == target,
                        target < 10 * m,
                        m > 0,
                        q <= 9,
                ;
                assert((q + 1) * m == q * m + m) by (nonlinear_arith);
            }
            subtract(&mut rem, &wide);
            q += 1;
        }
        proof {
            lemma_value_push(quot@, q);
            assert(num@.take(k + 1) =~= num@.take(k as int).push(num@[k as int]));
            lemma_value_push(num@.take(k as int), num@[k as int]);
            let qv = digits_value(quot@);
            assert((qv * m + kept) * 10 + num@[k as int] == (qv * 10 + q) * m + digits_value(rem@))
                by (nonlinear_arith)
                requires
                    digits_value(rem@) + q * m == kept * 10 + num@[k as int],
            ;
        }
        quot.push(q);
        k += 1;
    }
    proof {
        assert(num@.take(num.len() as int) =~= num@);
        lemma_fundamental_div_mod_converse(
            digits_value(num@) as int,
            m as int,
            digits_value(quot@) as int,
            digits_value(rem@) as int,
        );
    }
    (quot, rem)
}

/// Adds one to `a`, carrying from the right; a carry out of the first digit
/// makes the number one digit longer.
pub fn add_one(a: &mut Vec<u8>)
    requires
        all_digits(old(a)@),
    ensures
        all_digits(final(a)@),
        digits_value(final(a)@) == digits_value(old(a)@) + 1,
{
    let ghost before = a@;
    let n = a.len();
    let mut i: usize = n;
    let mut carry: u8 = 1;
    assert(a@.skip(n as int) =~= Seq::<u8>::empty());
    assert(pow10(0) == 1);
    while i > 0
        invariant
            i <= n,
            n == a.len(),
            n == before.len(),
            carry <= 1,
            all_digits(a@),
            all_digits(before),
            a@.take(i as int) == before.take(i as int),
            digits_value(a@.skip(i as int)) + carry * pow10((n - i) as nat) == digits_value(
                before.skip(i as int),
            ) + 1,
        decreases i,
    {
        let j = i - 1;
        let ghost prior = a@;
        let ghost carried = carry;
        assert(a@[j as int] == a@.take(i as int)[j as int]);
        assert(before[j as int] == before.take(i as int)[j as int]);
        let sum = a[j] + carry;
        let d: u8;
        if sum == 10 {
            d = 0;
            carry = 1;
        } else {
            d = sum;
            carry = 0;
        }
        a.set(j, d);
        proof {
            let p = pow10((n - i) as nat);
            lemma_value_skip_step(a@, j as int);
            lemma_value_skip_step(before, j as int);
            assert(a@.skip(i as int) =~= prior.skip(i as int));
            assert(a@.take(j as int) =~= before.take(j as int)) by {
                assert forall|k: int| 0 <= k < j implies a@[k] == before[k] by {
                    assert(prior[k] == prior.take(i as int)[k]);
                    assert(before[k] == before.take(i as int)[k]);
                }
            }
            assert(pow10((n - j) as nat) == 10 * p);
            let va = digits_value(prior.skip(i as int));
            let vo = digits_value(before.skip(i as int));
            let x = before[j as int];
            assert(d + 10 * carry == x + carried);
            assert(d * p + va + carry * (10 * p) == x * p + vo + 1) by (nonlinear_arith)
                requires
                    va + carried * p == vo + 1,
                    d + 10 * carry == x + carried,
            ;
            assert forall|k: int| 0 <= k < a@.len() implies #[trigger] a@[k] < 10 by {
                if k != j {
                    assert(a@[k] == prior[k]);
                }
            }
        }
        i = j;
    }
    proof {
        assert(a@.skip(0) =~= a@);
        assert(before.skip(0) =~= before);
    }
    if carry == 1 {
        let ghost low = a@;
        a.insert(0, 1);
        proof {
            assert(a@.skip(0) =~= a@);
            lemma_value_skip_step(a@, 0);
            assert(a@.skip(1) =~= low);
            assert(1 * pow10(n as nat) == pow10(n as nat)) by (nonlinear_arith);
            assert forall|k: int| 0 <= k < a@.len() implies #[trigger] a@[k] < 10 by {
                if k > 0 {
                    assert(a@[k] == low[k - 1]);
                }
            }
        }
    } else {
        assert(carry * pow10(n as nat) == 0) by (nonlinear_arith)
            requires
                carry == 0,
        ;
    }
}

/// The same number without its leading zeros; zero is written `0`.
pub fn shortest(v: &Vec<u8>) -> (r: Vec<u8>)
    requires
        all_digits(v@),
    ensures
        is_shortest(r@),
        digits_value(r@) == digits_value(v@),
        r@ == decimal_digits(digits_value(v@)),
{
    let mut start: usize = 0;
    while start < v.len() && v[start] == 0
        invariant
            start <= v.len(),
            forall|k: int| 0 <= k < start ==> v@[k] == 0,
        decreases v.len() - start,
    {
        start += 1;
    }
    proof {
        lemma_value_split(v@, start as int);
        lemma_value_zero(v@.take(start as int));
        assert(digits_value(v@.take(start as int)) * pow10((v.len() - start) as nat) == 0)
            by (nonlinear_arith)
            requires
                digits_value(v@.take(start as int)) == 0,
        ;
    }
    let mut r: Vec<u8> = Vec::new();
    if start == v.len() {
        r.push(0);
        proof {
            assert(v@.skip(start as int) =~= Seq::<u8>::empty());
            assert(r@ =~= seq![0u8]);
            lemma_value_single(0);
            lemma_shortest_is_decimal(r@);
        }
        return r;
    }
    let mut i: usize = start;
    while i < v.len()
        invariant
            start <= i <= v.len(),
            r@ == v@.subrange(start as int, i as int),
        decreases v.len() - i,
    {
        r.push(v[i]);
        assert(r@ =~= v@.subrange(start as int, i + 1));
        i += 1;
    }
    proof {
        assert(r@ =~= v@.skip(start as int));
        lemma_shortest_is_decimal(r@);
    }
    r
}

/// A reading of ten times a remainder `r` as `c * m + rest`, with `rest`
/// below `m`, tells how twice `r` stands to `m`.
pub proof fn lemma_half_by_next_digit(c: nat, rest: nat, m: nat, r: nat)
    requires
        c <= 9,
        rest < m,
        10 * r == c * m + rest,
    ensures
        r < m,
        2 * r > m <==> (c > 5 || (c == 5 && rest > 0)),
        2 * r == m <==> (c == 5 && rest == 0),
{
    assert(c * m <= 9 * m) by (nonlinear_arith)
        requires
            c <= 9,
    ;
    if c >= 6 {
        assert(c * m >= 6 * m) by (nonlinear_arith)
            requires
                c >= 6,
        ;
    } else if c == 5 {
        assert(c * m == 5 * m) by (nonlinear_arith)
            requires
                c == 5,
        ;
    } else {
        assert(c * m <= 4 * m) by (nonlinear_arith)
            requires
                c <= 4,
        ;
    }
}

/// `num` divided by `den` and rounded to the nearest whole number, halves to
/// the even one; the result is written without leading zeros.
pub fn divide_rounded(num: &Vec<u8>, den: &Vec<u8>) -> (r: Vec<u8>)
    requires
        all_digits(num@),
        all_digits(den@),
        digits_value(den@) > 0,
    ensures
        is_shortest(r@),
        digits_value(r@) == round_half_even(digits_value(num@), digits_value(den@)),
        r@ == decimal_digits(round_half_even(digits_value(num@), digits_value(den@))),
{
    let ghost n = digits_value(num@);
    let ghost m = digits_value(den@);
    // One digit more than the whole quotient decides the rounding.
    let scaled = with_zeros(num, 1);
    assert(pow10(1) == 10) by {
        assert(pow10(0) == 1);
    }
    let (mut quot, rest) = divide(&scaled, den);
    let ghost full = quot@;
    let next = quot.pop().unwrap();
    let odd = quot.len() > 0 && quot[quot.len() - 1] % 2 == 1;
    let exact = is_zero(&rest);
    let up = next > 5 || (next == 5 && (!exact || odd));
    proof {
        let whole = digits_value(quot@);
        let left = digits_value(rest@);
        assert(full =~= quot@.push(next));
        lemma_value_push(quot@, next);
        vstd::arithmetic::div_mod::lemma_fundamental_div_mod((n * 10) as int, m as int);
        vstd::arithmetic::div_mod::lemma_mod_pos_bound((n * 10) as int, m as int);
        assert(n * 10 == m * (whole * 10 + next) + left);
        assert(n * 10 >= 10 * (whole * m)) by (nonlinear_arith)
            requires
                n * 10 == m * (whole * 10 + next) + left,
        ;
        let r = (n - whole * m) as nat;
        assert(10 * r == next * m + left) by (nonlinear_arith)
            requires
                n * 10 == m * (whole * 10 + next) + left,
                r == n - whole * m,
        ;
        lemma_half_by_next_digit(next as nat, left, m, r);
        lemma_fundamental_div_mod_converse(n as int, m as int, whole as int, r as int);
        if quot.len() > 0 {
            assert(whole == digits_value(quot@.drop_last()) * 10 + quot@.last());
        }
        assert(odd == (whole % 2 == 1));
        assert(up == (2 * r > m || (2 * r == m && whole % 2 == 1)));
    }
    if up {
        add_one(&mut quot);
    }
    shortest(&quot)
}

/// The value of `v` as a number of 128 bits, where it fits in one.
pub fn to_u128(v: &Vec<u8>) -> (r: Option<u128>)
    requires
        all_digits(v@),
    ensures
        match r {
            Some(word) => word == digits_value(v@),
            None => digits_value(v@) > u128::MAX,
        },
{
    let mut acc: u128 = 0;
    let mut i: usize = 0;
    assert(v@.take(0) =~= Seq::<u8>::empty());
    while i < v.len()
        invariant
            i <= v.len(),
            all_digits(v@),
            acc == digits_value(v@.take(i as int)),
        decreases v.len() - i,
    {
        let d = v[i] as u128;
        proof {
            assert(v@.take(i + 1) =~= v@.take(i as int).push(v@[i as int]));
            lemma_value_push(v@.take(i as int), v@[i as int]);
        }
        if acc > (u128::MAX - d) / 10 {
            proof {
                lemma_value_split(v@, i + 1);
                lemma_pow10_positive((v.len() - i - 1) as nat);
                let h = digits_value(v@.take(i + 1));
                let p = pow10((v.len() - i - 1) as nat);
                assert(h * p >= h) by (nonlinear_arith)
                    requires
                        p >= 1,
                ;
            }
            return None;
        }
        acc = acc * 10 + d;
        i += 1;
    }
    assert(v@.take(v.len() as int) =~= v@);
    Some(acc)
}

/// The value of `v` as a machine word, where it fits in one.
pub fn to_u64(v: &Vec<u8>) -> (r: Option<u64>)
    requires
        all_digits(v@),
    ensures
        match r {
            Some(word) => word == digits_value(v@),
            None => digits_value(v@) > u64::MAX,
        },
{
    match to_u128(v) {
        Some(wide) => {
            if wide <= u64::MAX as u128 {
                Some(wide as u64)
            } else {
                None
            }
        },
        None => None,
    }
}

/// The value of `v` as a machine word, or the largest word where `v` is
/// larger than that.
pub fn to_u64_saturating(v: &Vec<u8>) -> (r: u64)
    requires
        all_digits(v@),
    ensures
        digits_value(v@) <= u64::MAX ==> r == digits_value(v@),
        digits_value(v@) > u64::MAX ==> r == u64::MAX,
{
    match to_u64(v) {
        Some(word) => word,
        None => u64::MAX,
    }
}

/// `v` behind as many zeros as bring it to `len` digits.
pub fn padded(v: &Vec<u8>, len: usize) -> (r: Vec<u8>)
    requires
        all_digits(v@),
        v.len() <= len,
    ensures
        all_digits(r@),
        r.len() == len,
        digits_value(r@) == digits_value(v@),
{
    let fill = len - v.len();
    let mut r: Vec<u8> = Vec::new();
    let mut k: usize = 0;
    while k < fill
        invariant
            k <= fill,
            r.len() == k,
            forall|i: int| 0 <= i < k ==> r@[i] == 0,
        decreases fill - k,
    {
        r.push(0);
        k += 1;
    }
    let ghost zeros = r@;
    let mut i: usize = 0;
    while i < v.len()
        invariant
            i <= v.len(),
            fill + v.len() == len,
            r@ == zeros + v@.take(i as int),
        decreases v.len() - i,
    {
        r.push(v[i]);
        assert(r@ =~= zeros + v@.take(i + 1));
        i += 1;
    }
    proof {
        assert(v@.take(v.len() as int) =~= v@);
        lemma_value_split(r@, fill as int);
        assert(r@.take(fill as int) =~= zeros);
        assert(r@.skip(fill as int) =~= v@);
        lemma_value_zero(zeros);
        assert(digits_value(zeros) * pow10((r@.len() - fill) as nat) == 0) by (nonlinear_arith)
            requires
                digits_value(zeros) == 0,
        ;
    }
    r
}

/// Whether `a` is greater than `b`, whatever their lengths.
pub fn greater(a: &Vec<u8>, b: &Vec<u8>) -> (r: bool)
    requires
        all_digits(a@),
        all_digits(b@),
    ensures
        r == (digits_value(a@) > digits_value(b@)),
{
    let len = if a.len() >= b.len() {
        a.len()
    } else {
        b.len()
    };
    let wide_a = padded(a, len);
    let wide_b = padded(b, len);
    !at_least(&wide_b, &wide_a)
}

} // verus!
