//! Powers, digits and their arithmetic facts.
use vstd::prelude::*;
use vstd::arithmetic::div_mod::*;
use vstd::arithmetic::mul::lemma_mul_inequality;

verus! {

/// `base` raised to `exp`.
pub open spec fn power(base: nat, exp: nat) -> nat
    decreases exp,
{
    if exp == 0 {
        1
    } else {
        base * power(base, (exp - 1) as nat)
    }
}

/// The digit of `value` at position `exp` of its base-`base` expansion.
pub open spec fn digit(value: nat, base: nat, exp: nat) -> nat
    recommends
        base >= 2,
{
    (value / power(base, exp)) % base
}

/// The number of positional digits of `value` in base `base`; zero has one digit.
pub open spec fn num_digits(value: nat, base: nat) -> nat
    recommends
        base >= 2,
    decreases value,
{
    if base < 2 || value < base {
        1
    } else {
        proof {
            lemma_div_decreases(value as int, base as int);
        }
        1 + num_digits(value / base, base)
    }
}

/// A power of a positive base is positive.
pub proof fn lemma_power_positive(base: nat, exp: nat)
    requires
        base >= 1,
    ensures
        power(base, exp) >= 1,
    decreases exp,
{
    if exp > 0 {
        lemma_power_positive(base, (exp - 1) as nat);
        let p = power(base, (exp - 1) as nat);
        assert(base * p >= 1) by (nonlinear_arith)
            requires
                base >= 1,
                p >= 1,
        ;
    }
}

/// Powers of a base of at least two grow strictly with the exponent.
pub proof fn lemma_power_strictly_increases(base: nat, e1: nat, e2: nat)
    requires
        base >= 2,
        e1 < e2,
    ensures
        power(base, e1) < power(base, e2),
    decreases e2,
{
    let p = power(base, (e2 - 1) as nat);
    lemma_power_positive(base, (e2 - 1) as nat);
    assert(power(base, e2) == base * p);
    assert(p < base * p) by (nonlinear_arith)
        requires
            base >= 2,
            p >= 1,
    ;
    if e1 < e2 - 1 {
        lemma_power_strictly_increases(base, e1, (e2 - 1) as nat);
    }
}

/// Powers of a base of at least two grow with the exponent.
pub proof fn lemma_power_increases(base: nat, e1: nat, e2: nat)
    requires
        base >= 2,
        e1 <= e2,
    ensures
        power(base, e1) <= power(base, e2),
{
    if e1 < e2 {
        lemma_power_strictly_increases(base, e1, e2);
    }
}

/// At most one exponent brackets a value: `b^e <= v < b^(e+1)`.
pub proof fn lemma_bracket_unique(value: nat, base: nat, e1: nat, e2: nat)
    requires
        base >= 2,
        power(base, e1) <= value < power(base, e1 + 1),
        power(base, e2) <= value < power(base, e2 + 1),
    ensures
        e1 == e2,
{
    if e1 < e2 {
        lemma_power_increases(base, e1 + 1, e2);
    } else if e2 < e1 {
        lemma_power_increases(base, e2 + 1, e1);
    }
}

/// `num_digits` is one more than the bracketing exponent of a nonzero value.
pub proof fn lemma_num_digits_bracket(value: nat, base: nat)
    requires
        base >= 2,
    ensures
        num_digits(value, base) >= 1,
        value < power(base, num_digits(value, base)),
        value >= 1 ==> power(base, (num_digits(value, base) - 1) as nat) <= value,
    decreases value,
{
    let n = num_digits(value, base);
    if value < base {
        assert(power(base, 0) == 1);
        assert(power(base, 1) == base * power(base, 0));
    } else {
        let q = value / base;
        lemma_fundamental_div_mod(value as int, base as int);
        lemma_num_digits_bracket(q, base);
        let m = num_digits(q, base);
        assert(n == m + 1);
        assert(power(base, n) == base * power(base, m));
        assert(power(base, m) == base * power(base, (m - 1) as nat)) by {
            assert(m >= 1);
        }
        let pm = power(base, m);
        let pm1 = power(base, (m - 1) as nat);
        assert(q >= 1) by {
            lemma_div_pos_is_pos(value as int, base as int);
            lemma_div_non_zero(value as int, base as int);
        }
        let r = value % base;
        assert(value == base * q + r);
        assert(r < base);
        assert(base * (q + 1) <= base * pm) by {
            lemma_mul_inequality((q + 1) as int, pm as int, base as int);
        }
        assert(value < base * pm) by (nonlinear_arith)
            requires
                value == base * q + r,
                r < base,
                base * (q + 1) <= base * pm,
        ;
        assert(base * pm1 <= value) by (nonlinear_arith)
            requires
                value == base * q + value % base,
                value % base >= 0,
                pm1 <= q,
                base >= 2,
        ;
    }
}


/// Powers of zero and one.
pub proof fn lemma_power_small_base(base: nat, exp: nat)
    requires
        base <= 1,
    ensures
        power(base, exp) == if base == 0 && exp > 0 { 0nat } else { 1nat },
    decreases exp,
{
    if exp > 0 {
        lemma_power_small_base(base, (exp - 1) as nat);
    }
}


/// One more factor of the base.
pub proof fn lemma_power_step(base: nat, exp: nat)
    ensures
        power(base, exp + 1) == base * power(base, exp),
        power(base, exp + 1) == power(base, exp) * base,
        power(base, 0) == 1,
        power(base, 1) == base,
{
    assert(power(base, 0) == 1);
    assert(power(base, 1) == base * power(base, 0));
    assert(base * power(base, exp) == power(base, exp) * base) by (nonlinear_arith);
}


/// Peeling the digit at `exp` off `value % base^(exp+1)`.
pub proof fn lemma_digit_step(value: nat, base: nat, exp: nat)
    requires
        base >= 2,
    ensures
        (value % power(base, exp + 1)) / power(base, exp) == digit(value, base, exp),
        (value % power(base, exp + 1)) % power(base, exp) == value % power(base, exp),
{
    let p = power(base, exp);
    lemma_power_positive(base, exp);
    lemma_power_step(base, exp);
    lemma_mod_mod(value as int, p as int, base as int);
    lemma_mod_breakdown(value as int, p as int, base as int);
    let d = digit(value, base, exp);
    let r = value % p;
    let rem = value % power(base, exp + 1);
    assert(rem == p * d + r);
    assert(rem == d * p + r) by (nonlinear_arith)
        requires
            rem == p * d + r,
    ;
    lemma_fundamental_div_mod_converse_div(rem as int, p as int, d as int, r as int);
}


/// A power of a base of at least two exceeds its exponent.
pub proof fn lemma_power_exceeds_exp(base: nat, exp: nat)
    requires
        base >= 2,
    ensures
        power(base, exp) > exp,
    decreases exp,
{
    lemma_power_step(base, 0);
    if exp > 0 {
        lemma_power_exceeds_exp(base, (exp - 1) as nat);
        lemma_power_step(base, (exp - 1) as nat);
        let p = power(base, (exp - 1) as nat);
        assert(base * p > exp) by (nonlinear_arith)
            requires
                base >= 2,
                p + 1 > exp,
                exp >= 1,
        ;
    }
}


/// The digit at `exp + 1` of `value` is the digit at `exp` of `value / base`.
pub proof fn lemma_digit_shift(value: nat, base: nat, exp: nat)
    requires
        base >= 2,
    ensures
        digit(value, base, exp + 1) == digit(value / base, base, exp),
        digit(value, base, 0) == value % base,
{
    lemma_power_step(base, exp);
    lemma_power_positive(base, exp);
    lemma_div_denominator(value as int, base as int, power(base, exp) as int);
    assert(value / 1 == value);
}


/// Exponents add under multiplication.
pub proof fn lemma_power_adds(base: nat, e1: nat, e2: nat)
    ensures
        power(base, e1 + e2) == power(base, e1) * power(base, e2),
    decreases e2,
{
    lemma_power_step(base, 0);
    let a = power(base, e1);
    if e2 == 0 {
        assert(a * 1 == a);
    } else {
        let e3 = (e2 - 1) as nat;
        lemma_power_adds(base, e1, e3);
        lemma_power_step(base, e1 + e3);
        lemma_power_step(base, e3);
        assert(e1 + e3 + 1 == e1 + e2);
        let c = power(base, e3);
        assert(power(base, e1 + e2) == base * (a * c));
        assert(power(base, e2) == base * c);
        assert(base * (a * c) == a * (base * c)) by (nonlinear_arith);
    }
}

} // verus!
