//! Base-K numbers: a natural number written as a list of (multiplier, exponent)
//! terms at a fixed base, highest exponent first.
use vstd::prelude::*;
use vstd::arithmetic::div_mod::*;
use crate::arith::{
    digit, lemma_bracket_unique, lemma_digit_step, lemma_num_digits_bracket,
    lemma_power_exceeds_exp, lemma_power_increases, lemma_power_positive, lemma_power_small_base,
    lemma_power_step, num_digits, power,
};

verus! {

/// The multiplier (digit) of a term.
#[derive(Debug, Clone, Copy, PartialEq, Eq, Structural)]
pub struct Multiplier(pub u32);

/// The exponent of a term.
#[derive(Debug, Clone, Copy, PartialEq, Eq, Structural)]
pub struct Power(pub u32);

/// Why an operation on a base-K number was refused.
#[derive(Debug, Clone, Copy, PartialEq, Eq, Structural)]
pub enum BaseError {
    /// The base lies outside `2..=36`.
    BaseOutOfRange,
    /// The terms do not add up to the stored number.
    RoundTripMismatch,
}

/// A natural number in base-K notation: `number == Σ multiplier · base^exponent`
/// over `exponents`, ordered from the highest exponent down to zero.
#[derive(Debug, Clone, PartialEq, Eq)]
pub struct Base {
    /// The number being represented.
    pub number: u32,
    /// The base K.
    pub base: u32,
    /// The (multiplier, exponent) terms, highest exponent first.
    pub exponents: Vec<(Multiplier, Power)>,
    /// Whether every exponent is strictly below the base.
    pub reduced: bool,
}

/// The smallest base accepted by `Base::from`.
pub const MIN_BASE: u32 = 2;

/// The largest base accepted by `Base::from`: one digit symbol per value below it.
pub const MAX_BASE: u32 = 36;

/// A term list read as pairs of natural numbers.
pub open spec fn terms_of(v: Seq<(Multiplier, Power)>) -> Seq<(nat, nat)> {
    v.map_values(|t: (Multiplier, Power)| (t.0.0 as nat, t.1.0 as nat))
}

/// `Σ multiplier · base^exponent` over a term list.
pub open spec fn terms_value(ts: Seq<(nat, nat)>, base: nat) -> nat
    decreases ts.len(),
{
    if ts.len() == 0 {
        0
    } else {
        ts[0].0 * power(base, ts[0].1) + terms_value(ts.skip(1), base)
    }
}

/// The `n` lowest positions of the base-`base` expansion of `value`, one term
/// per exponent from `n - 1` down to zero.
pub open spec fn canonical_terms(value: nat, base: nat, n: nat) -> Seq<(nat, nat)> {
    Seq::new(n, |i: int| (digit(value, base, (n - 1 - i) as nat), (n - 1 - i) as nat))
}

/// The full base-`base` expansion of `value`; zero is the single term `(0, 0)`.
pub open spec fn expansion(value: nat, base: nat) -> Seq<(nat, nat)> {
    canonical_terms(value, base, num_digits(value, base))
}

/// Every exponent of the term list lies strictly below `base`.
pub open spec fn all_reduced(ts: Seq<(nat, nat)>, base: nat) -> bool {
    forall|i: int| 0 <= i < ts.len() ==> #[trigger] ts[i].1 < base
}

impl Base {
    /// The terms as pairs of natural numbers.
    pub open spec fn terms(&self) -> Seq<(nat, nat)> {
        terms_of(self.exponents@)
    }

    /// The terms are exactly the base-K expansion of `number`, and `reduced`
    /// says whether every exponent is below the base.
    pub open spec fn is_expansion(&self) -> bool {
        &&& self.base >= 2
        &&& self.terms() == expansion(self.number as nat, self.base as nat)
        &&& self.reduced == all_reduced(self.terms(), self.base as nat)
    }
}

/// `base^exp` when it fits in a `u32`.
fn pow_u32(base: u32, exp: u32) -> (r: u32)
    requires
        base >= 2,
        power(base as nat, exp as nat) <= u32::MAX,
    ensures
        r == power(base as nat, exp as nat),
{
    let mut acc: u32 = 1;
    let mut i: u32 = 0;
    proof {
        lemma_power_step(base as nat, 0);
    }
    while i < exp
        invariant
            base >= 2,
            i <= exp,
            acc == power(base as nat, i as nat),
            power(base as nat, exp as nat) <= u32::MAX,
        decreases exp - i,
    {
        proof {
            lemma_power_step(base as nat, i as nat);
            lemma_power_increases(base as nat, (i + 1) as nat, exp as nat);
        }
        acc = acc * base;
        i = i + 1;
    }
    acc
}

/// `base^exp` if it is at most `cap`, else `None`.
fn pow_within(base: u32, exp: u32, cap: u32) -> (r: Option<u64>)
    ensures
        power(base as nat, exp as nat) <= cap ==> r == Some(power(base as nat, exp as nat) as u64),
        power(base as nat, exp as nat) > cap ==> r is None,
{
    if base <= 1 {
        proof {
            lemma_power_small_base(base as nat, exp as nat);
        }
        if base == 0 && exp > 0 {
            return Some(0);
        }
        if cap == 0 {
            return None;
        }
        return Some(1);
    }
    proof {
        lemma_power_positive(base as nat, exp as nat);
        lemma_power_step(base as nat, 0);
    }
    if cap == 0 {
        return None;
    }
    let mut acc: u64 = 1;
    let mut i: u32 = 0;
    while i < exp
        invariant
            base >= 2,
            i <= exp,
            acc == power(base as nat, i as nat),
            acc <= cap,
        decreases exp - i,
    {
        proof {
            lemma_power_step(base as nat, i as nat);
        }
        assert(acc * (base as u64) <= u32::MAX as u64 * u32::MAX as u64) by (nonlinear_arith)
            requires
                acc <= u32::MAX,
                base <= u32::MAX,
        ;
        acc = acc * (base as u64);
        i = i + 1;
        if acc > cap as u64 {
            proof {
                lemma_power_increases(base as nat, i as nat, exp as nat);
            }
            return None;
        }
    }
    Some(acc)
}

/// Returns `Some((true, e))` if `number` is exactly `base^e`, `Some((false, e))`
/// if `base^e < number < base^(e+1)`, and `None` if `number < base`.
pub fn is_power_of(number: u32, base: u32) -> (r: Option<(bool, u32)>)
    requires
        base >= 2,
    ensures
        number < base <==> r is None,
        r matches Some((exact, e)) ==> {
            &&& e >= 1
            &&& power(base as nat, e as nat) <= number < power(base as nat, (e + 1) as nat)
            &&& exact == (number == power(base as nat, e as nat))
        },
{
    if number < base {
        return None;
    }
    let mut guess: u32 = 1;
    let mut chunk: u64 = base as u64;
    proof {
        lemma_power_step(base as nat, 0);
    }
    loop
        invariant
            base >= 2,
            chunk >= base,
            guess >= 1,
            guess < chunk,
            chunk == power(base as nat, guess as nat),
            chunk <= number,
        decreases number - chunk,
    {
        assert(chunk * (base as u64) <= u32::MAX as u64 * u32::MAX as u64) by (nonlinear_arith)
            requires
                chunk <= u32::MAX,
                base <= u32::MAX,
        ;
        let next: u64 = chunk * (base as u64);
        proof {
            lemma_power_step(base as nat, guess as nat);
        }
        assert(next == power(base as nat, (guess + 1) as nat));
        assert(next >= 2 * chunk) by (nonlinear_arith)
            requires
                next == chunk * base,
                base >= 2,
        ;
        if number as u64 == chunk {
            return Some((true, guess));
        }
        if (number as u64) < next {
            return Some((false, guess));
        }
        guess = guess + 1;
        chunk = next;
    }
}

/// Whether every exponent of the list lies strictly below `base`.
pub fn check_reduced(exponent_list: &[(Multiplier, Power)], base: u32) -> (r: bool)
    ensures
        r == all_reduced(terms_of(exponent_list@), base as nat),
{
    let mut i: usize = 0;
    while i < exponent_list.len()
        invariant
            0 <= i <= exponent_list@.len(),
            forall|j: int| 0 <= j < i ==> #[trigger] terms_of(exponent_list@)[j].1 < base,
        decreases exponent_list@.len() - i,
    {
        if exponent_list[i].1.0 >= base {
            assert(terms_of(exponent_list@)[i as int].1 >= base);
            return false;
        }
        i = i + 1;
    }
    true
}

/// The base-`base` expansion of `value`, one term per exponent from the highest
/// down to zero.
pub(crate) fn decompose(value: u32, base: u32) -> (r: Base)
    requires
        base >= 2,
    ensures
        r.is_expansion(),
        r.number == value,
        r.base == base,
{
    let top: u32 = match is_power_of(value, base) {
        Some((_, p)) => p,
        None => 0,
    };
    let ghost n: nat = num_digits(value as nat, base as nat);
    proof {
        lemma_num_digits_bracket(value as nat, base as nat);
        lemma_power_step(base as nat, 0);
        if value >= base {
            lemma_bracket_unique(value as nat, base as nat, top as nat, (n - 1) as nat);
        } else if value >= 1 {
            lemma_bracket_unique(value as nat, base as nat, 0, (n - 1) as nat);
        } else {
            lemma_power_positive(base as nat, (n - 1) as nat);
        }
        assert(top + 1 == n);
        lemma_power_exceeds_exp(base as nat, top as nat);
        lemma_small_mod(value as nat, power(base as nat, n));
        lemma_power_increases(base as nat, top as nat, n);
    }
    let ghost expected = expansion(value as nat, base as nat);
    let mut exponent_list: Vec<(Multiplier, Power)> = Vec::new();
    let mut rem: u32 = value;
    let mut count: u32 = 0;
    assert(terms_of(exponent_list@) =~= expected.take(0));
    while count <= top
        invariant
            base >= 2,
            top + 1 == n,
            top < u32::MAX,
            n == num_digits(value as nat, base as nat),
            power(base as nat, top as nat) <= value || top == 0,
            expected == canonical_terms(value as nat, base as nat, n),
            count <= n,
            rem == (value as nat) % power(base as nat, (n - count) as nat),
            exponent_list@.len() == count,
            terms_of(exponent_list@) == expected.take(count as int),
        decreases n - count,
    {
        let exp: u32 = top - count;
        proof {
            lemma_power_increases(base as nat, exp as nat, top as nat);
            lemma_digit_step(value as nat, base as nat, exp as nat);
            lemma_power_positive(base as nat, exp as nat);
            assert((n - count) as nat == exp + 1);
        }
        let p = pow_u32(base, exp);
        let m = rem / p;
        assert(m == digit(value as nat, base as nat, exp as nat));
        assert(expected[count as int] == (m as nat, exp as nat));
        rem = rem % p;
        let ghost before = exponent_list@;
        exponent_list.push((Multiplier(m), Power(exp)));
        assert(exponent_list@ == before.push((Multiplier(m), Power(exp))));
        assert(terms_of(exponent_list@)[count as int] == (m as nat, exp as nat));
        assert forall|i: int| 0 <= i < count implies #[trigger] terms_of(exponent_list@)[i]
            == terms_of(before)[i] by {
            assert(exponent_list@[i] == before[i]);
        }
        count = count + 1;
        assert(terms_of(exponent_list@) =~= expected.take(count as int));
    }
    assert(expected.take(n as int) =~= expected);
    let reduced = check_reduced(exponent_list.as_slice(), base);
    Base { number: value, base, exponents: exponent_list, reduced }
}

impl Base {
    /// Whether every exponent lies below the base, as recorded in `reduced`.
    pub fn is_reduced(&self) -> (r: bool)
        ensures
            r == self.reduced,
    {
        self.reduced
    }

    /// The base-`base` expansion of `value`; refused unless `2 <= base <= 36`.
    pub fn from(value: u32, base: u32) -> (r: Result<Base, BaseError>)
        ensures
            base < MIN_BASE || base > MAX_BASE ==> r == Err::<Base, BaseError>(BaseError::BaseOutOfRange),
            MIN_BASE <= base <= MAX_BASE ==> (r matches Ok(b) && b.is_expansion() && b.number == value
                && b.base == base),
    {
        if base < MIN_BASE || base > MAX_BASE {
            return Err(BaseError::BaseOutOfRange);
        }
        Ok(decompose(value, base))
    }
}

/// The `n` lowest positions of an expansion add up to `value % base^n`.
pub proof fn lemma_canonical_terms_value(value: nat, base: nat, n: nat)
    requires
        base >= 2,
    ensures
        terms_value(canonical_terms(value, base, n), base) == value % power(base, n),
    decreases n,
{
    let cs = canonical_terms(value, base, n);
    lemma_power_step(base, 0);
    if n == 0 {
        lemma_small_mod(0, 1);
        assert(value % 1 == 0) by {
            lemma_mod_self_0(1);
            lemma_mod_multiples_basic(value as int, 1);
        }
    } else {
        let m = (n - 1) as nat;
        assert(cs.skip(1) =~= canonical_terms(value, base, m));
        lemma_canonical_terms_value(value, base, m);
        let p = power(base, m);
        lemma_power_positive(base, m);
        lemma_power_step(base, m);
        lemma_mod_breakdown(value as int, p as int, base as int);
        assert(digit(value, base, m) * p == p * digit(value, base, m)) by (nonlinear_arith);
    }
}

/// Reading back an expansion gives the number it was made from.
pub proof fn lemma_round_trip(value: nat, base: nat)
    requires
        2 <= base,
    ensures
        terms_value(expansion(value, base), base) == value,
{
    lemma_canonical_terms_value(value, base, num_digits(value, base));
    lemma_num_digits_bracket(value, base);
    lemma_small_mod(value, power(base, num_digits(value, base)));
}

/// Unfolding the value of a suffix of a term list by one term.
pub(crate) proof fn lemma_suffix_value_step(ts: Seq<(nat, nat)>, base: nat, i: int)
    requires
        0 <= i < ts.len(),
    ensures
        terms_value(ts.skip(i), base) == ts[i].0 * power(base, ts[i].1) + terms_value(ts.skip(i + 1), base),
{
    assert(ts.skip(i).skip(1) =~= ts.skip(i + 1));
}

/// A longer suffix of a term list is worth at least as much as a shorter one.
proof fn lemma_suffix_value_grows(ts: Seq<(nat, nat)>, base: nat, i: int, j: int)
    requires
        0 <= i <= j <= ts.len(),
    ensures
        terms_value(ts.skip(i), base) >= terms_value(ts.skip(j), base),
    decreases j - i,
{
    if i < j {
        lemma_suffix_value_step(ts, base, i);
        lemma_suffix_value_grows(ts, base, i + 1, j);
    }
}

impl Base {
    /// What `compute` returns: the number when the terms add up to it.
    pub open spec fn computed(&self) -> Result<u32, BaseError> {
        if terms_value(self.terms(), self.base as nat) == self.number {
            Ok(self.number)
        } else {
            Err(BaseError::RoundTripMismatch)
        }
    }

    /// The number the terms add up to, which must be the stored number.
    pub fn compute(&self) -> (r: Result<u32, BaseError>)
        ensures
            r == self.computed(),
    {
        let ghost ts = self.terms();
        let ghost b = self.base as nat;
        let mut i: usize = self.exponents.len();
        let mut acc: u64 = 0;
        assert(ts.skip(i as int) =~= Seq::<(nat, nat)>::empty());
        while i > 0
            invariant
                ts == self.terms(),
                b == self.base,
                i <= ts.len(),
                acc == terms_value(ts.skip(i as int), b),
                acc <= self.number,
            decreases i,
        {
            let (m, e) = self.exponents[i - 1];
            assert(ts[i - 1] == (m.0 as nat, e.0 as nat));
            proof {
                lemma_suffix_value_step(ts, b, i - 1);
                lemma_suffix_value_grows(ts, b, 0, i - 1);
                assert(ts.skip(0) =~= ts);
            }
            if m.0 != 0 {
                match pow_within(self.base, e.0, self.number) {
                    None => {
                        assert(m.0 * power(b, e.0 as nat) >= power(b, e.0 as nat)) by (nonlinear_arith)
                            requires
                                m.0 >= 1,
                        ;
                        return Err(BaseError::RoundTripMismatch);
                    },
                    Some(p) => {
                        assert((m.0 as u64) * p <= u32::MAX as u64 * u32::MAX as u64)
                            by (nonlinear_arith)
                            requires
                                m.0 <= u32::MAX,
                                p <= u32::MAX,
                        ;
                        let t: u64 = (m.0 as u64) * p;
                        if acc + t > self.number as u64 {
                            return Err(BaseError::RoundTripMismatch);
                        }
                        acc = acc + t;
                    },
                }
            } else {
                let ghost pw = power(b, e.0 as nat);
                assert((m.0 as nat) * pw == 0) by (nonlinear_arith)
                    requires
                        m.0 == 0,
                ;
            }
            i = i - 1;
        }
        assert(ts.skip(0) =~= ts);
        if acc == self.number as u64 {
            Ok(self.number)
        } else {
            Err(BaseError::RoundTripMismatch)
        }
    }
}

/// A term list read at base `k + 1`: each exponent equal to `k` becomes `k + 1`,
/// every other term is kept.
pub open spec fn bump_terms(ts: Seq<(nat, nat)>, k: nat) -> Seq<(nat, nat)> {
    ts.map_values(|t: (nat, nat)| if t.1 == k { (t.0, k + 1) } else { t })
}

/// The positions whose exponent lies strictly below `base`.
pub open spec fn reduced_positions(ts: Seq<(nat, nat)>, base: nat) -> Set<int> {
    Set::new(|i: int| 0 <= i < ts.len() && ts[i].1 < base)
}

impl Base {
    /// Reads the terms at base `K + 1`: an exponent equal to the old base `K`
    /// becomes `K + 1`, all others are kept; the number and the `reduced` flag
    /// are carried over.
    pub fn base_bump(b: Base) -> (r: Base)
        requires
            b.base < u32::MAX,
        ensures
            r.number == b.number,
            r.base == b.base + 1,
            r.terms() == bump_terms(b.terms(), b.base as nat),
            r.reduced == b.reduced,
    {
        let k = b.base;
        let ghost expected = bump_terms(b.terms(), k as nat);
        let mut exponents: Vec<(Multiplier, Power)> = Vec::new();
        let mut i: usize = 0;
        while i < b.exponents.len()
            invariant
                k == b.base,
                k < u32::MAX,
                expected == bump_terms(b.terms(), k as nat),
                i <= b.exponents@.len(),
                exponents@.len() == i,
                terms_of(exponents@) == expected.take(i as int),
            decreases b.exponents@.len() - i,
        {
            let (m, p) = b.exponents[i];
            let bumped = if p.0 == k {
                (m, Power(k + 1))
            } else {
                (m, p)
            };
            let ghost before = exponents@;
            exponents.push(bumped);
            assert(terms_of(exponents@) =~= expected.take(i + 1)) by {
                assert(exponents@ == before.push(bumped));
                assert(b.terms()[i as int] == (m.0 as nat, p.0 as nat));
                assert forall|j: int| 0 <= j < i implies #[trigger] terms_of(exponents@)[j]
                    == terms_of(before)[j] by {
                    assert(exponents@[j] == before[j]);
                }
            }
            i = i + 1;
        }
        assert(expected.take(i as int) =~= expected);
        Base { number: b.number, base: k + 1, exponents, reduced: b.reduced }
    }
}

/// Bumping the base never turns a position whose exponent was below the old
/// base into one that is not below the new base. A term list that is already
/// reduced is left as it is and stays reduced, and one that is not reduced
/// stays not reduced, so a carried-over `reduced` flag keeps its meaning.
pub proof fn lemma_bump_keeps_reduced_positions(ts: Seq<(nat, nat)>, k: nat)
    ensures
        reduced_positions(ts, k).subset_of(reduced_positions(bump_terms(ts, k), k + 1)),
        all_reduced(ts, k) ==> bump_terms(ts, k) == ts,
        all_reduced(bump_terms(ts, k), k + 1) == all_reduced(ts, k),
{
    let bs = bump_terms(ts, k);
    if all_reduced(ts, k) {
        assert(bs =~= ts);
    }
    if !all_reduced(ts, k) {
        let i = choose|i: int| 0 <= i < ts.len() && !(#[trigger] ts[i].1 < k);
        assert(!(bs[i].1 < k + 1));
    }
    if !all_reduced(bs, k + 1) {
        let i = choose|i: int| 0 <= i < bs.len() && !(#[trigger] bs[i].1 < k + 1);
        assert(!(ts[i].1 < k));
    }
}

/// `compute` on an expansion, such as one built by `Base::from`, gives back
/// the number it was made from.
pub proof fn lemma_compute_of_expansion(b: Base)
    requires
        b.is_expansion(),
    ensures
        b.computed() == Ok::<u32, BaseError>(b.number),
{
    lemma_round_trip(b.number as nat, b.base as nat);
}

impl From<Base> for u32 {
    /// The number a base-K number stands for.
    fn from(b: Base) -> (r: u32)
        ensures
            r == b.number,
    {
        b.number
    }
}

impl vstd::std_specs::convert::FromSpecImpl<Base> for u32 {
    open spec fn obeys_from_spec() -> bool {
        true
    }

    open spec fn from_spec(b: Base) -> u32 {
        b.number
    }
}

} // verus!
