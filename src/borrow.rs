//! Subtracting one from a base-K expansion by borrowing: the lowest nonzero
//! digit loses one and every digit below it becomes `K - 1`.
use vstd::prelude::*;
use vstd::arithmetic::div_mod::{
    lemma_div_is_ordered, lemma_fundamental_div_mod, lemma_fundamental_div_mod_converse_div, lemma_hoist_over_denominator,
    lemma_mod_bound, lemma_mod_multiples_vanish, lemma_small_div_converse, lemma_small_mod,
};
use crate::arith::{
    digit, lemma_bracket_unique, lemma_num_digits_bracket, lemma_power_adds, lemma_power_positive,
    lemma_power_step, num_digits, power,
};
use crate::base::{
    canonical_terms, check_reduced, expansion, lemma_round_trip, terms_of, terms_value, Base,
    Multiplier, Power,
};

verus! {

/// One term per exponent from `len - 1` down to zero, each digit below `base`.
pub open spec fn positional(ts: Seq<(nat, nat)>, base: nat) -> bool {
    forall|i: int| 0 <= i < ts.len() ==> #[trigger] ts[i].1 == ts.len() - 1 - i && ts[i].0 < base
}

/// A positional list is worth less than `base^len`, and it is the list of the
/// `len` lowest digits of its value.
pub proof fn lemma_positional_canonical(ts: Seq<(nat, nat)>, base: nat)
    requires
        base >= 2,
        positional(ts, base),
    ensures
        terms_value(ts, base) < power(base, ts.len()),
        ts == canonical_terms(terms_value(ts, base), base, ts.len()),
    decreases ts.len(),
{
    let n = ts.len();
    lemma_power_step(base, 0);
    if n == 0 {
        assert(ts =~= canonical_terms(terms_value(ts, base), base, n));
    } else {
        let rest = ts.skip(1);
        assert(positional(rest, base)) by {
            assert forall|i: int| 0 <= i < rest.len() implies #[trigger] rest[i].1 == rest.len() - 1 - i
                && rest[i].0 < base by {
                assert(rest[i] == ts[i + 1]);
            }
        }
        lemma_positional_canonical(rest, base);
        let m = (n - 1) as nat;
        let s = terms_value(ts, base);
        let s2 = terms_value(rest, base);
        let d0 = ts[0].0;
        let p = power(base, m);
        assert(ts[0].1 == m);
        assert(s == d0 * p + s2);
        lemma_power_step(base, m);
        assert(s < base * p) by (nonlinear_arith)
            requires
                s == d0 * p + s2,
                s2 < p,
                d0 + 1 <= base,
        ;
        lemma_fundamental_div_mod_converse_div(s as int, p as int, d0 as int, s2 as int);
        lemma_small_mod(d0, base);
        assert(digit(s, base, m) == d0);
        let cs = canonical_terms(s, base, n);
        assert forall|i: int| 1 <= i < n implies #[trigger] cs[i] == ts[i] by {
            let e = (n - 1 - i) as nat;
            lemma_digit_of_sum(d0, s2, base, m, e);
            assert(rest[i - 1] == ts[i]);
        }
        assert(cs =~= ts);
    }
}

/// Below the top position, a digit of `d·base^m + s` is the digit of `s`.
proof fn lemma_digit_of_sum(d: nat, s: nat, base: nat, m: nat, e: nat)
    requires
        base >= 2,
        e < m,
    ensures
        digit(d * power(base, m) + s, base, e) == digit(s, base, e),
{
    let k = (m - e - 1) as nat;
    lemma_power_adds(base, e, (m - e) as nat);
    lemma_power_step(base, k);
    lemma_power_positive(base, e);
    let pe = power(base, e);
    let pk = power(base, k);
    let x = d * pk;
    assert(d * power(base, m) == (x * base) * pe) by (nonlinear_arith)
        requires
            power(base, m) == pe * power(base, (m - e) as nat),
            power(base, (m - e) as nat) == base * pk,
            x == d * pk,
    ;
    lemma_hoist_over_denominator(s as int, (x * base) as int, pe);
    assert((d * power(base, m) + s) / pe == x * base + s / pe);
    lemma_mod_multiples_vanish(x as int, (s / pe) as int, base as int);
    assert(x * base == base * x) by (nonlinear_arith);
}

/// A positional list whose top digit is nonzero, or that has a single term,
/// is the expansion of its value.
pub proof fn lemma_positional_expansion(ts: Seq<(nat, nat)>, base: nat)
    requires
        base >= 2,
        positional(ts, base),
        ts.len() >= 1,
        ts.len() == 1 || ts[0].0 >= 1,
    ensures
        ts == expansion(terms_value(ts, base), base),
{
    let n = ts.len();
    let s = terms_value(ts, base);
    lemma_positional_canonical(ts, base);
    lemma_num_digits_bracket(s, base);
    lemma_power_step(base, 0);
    if n == 1 {
        assert(s < base);
        assert(num_digits(s, base) == 1);
    } else {
        let p = power(base, (n - 1) as nat);
        assert(ts[0].1 == n - 1);
        assert(s == ts[0].0 * p + terms_value(ts.skip(1), base));
        assert(ts[0].0 * p >= p) by (nonlinear_arith)
            requires
                ts[0].0 >= 1,
        ;
        lemma_power_positive(base, (n - 1) as nat);
        lemma_bracket_unique(s, base, (n - 1) as nat, (num_digits(s, base) - 1) as nat);
    }
}

/// A list whose digits are all zero is worth zero.
proof fn lemma_zeros_value(ts: Seq<(nat, nat)>, base: nat)
    requires
        forall|i: int| 0 <= i < ts.len() ==> #[trigger] ts[i].0 == 0,
    ensures
        terms_value(ts, base) == 0,
    decreases ts.len(),
{
    if ts.len() > 0 {
        let rest = ts.skip(1);
        assert forall|i: int| 0 <= i < rest.len() implies #[trigger] rest[i].0 == 0 by {
            assert(rest[i] == ts[i + 1]);
        }
        lemma_zeros_value(rest, base);
        assert(ts[0].0 * power(base, ts[0].1) == 0);
    }
}

/// A positional list of `k` digits all equal to `base - 1` is worth `base^k - 1`.
proof fn lemma_top_digits_value(ts: Seq<(nat, nat)>, base: nat)
    requires
        base >= 2,
        forall|i: int| 0 <= i < ts.len() ==> #[trigger] ts[i] == ((base - 1) as nat, (ts.len() - 1 - i) as nat),
    ensures
        terms_value(ts, base) + 1 == power(base, ts.len()),
    decreases ts.len(),
{
    lemma_power_step(base, 0);
    if ts.len() > 0 {
        let m = (ts.len() - 1) as nat;
        let rest = ts.skip(1);
        assert forall|i: int| 0 <= i < rest.len() implies #[trigger] rest[i] == (
            (base - 1) as nat,
            (rest.len() - 1 - i) as nat,
        ) by {
            assert(rest[i] == ts[i + 1]);
        }
        lemma_top_digits_value(rest, base);
        lemma_power_step(base, m);
        let p = power(base, m);
        assert(((base - 1) as nat) * p + p == base * p) by (nonlinear_arith)
            requires
                base >= 2,
        ;
    }
}

/// The value of a list is that of its first `j` terms plus that of the rest.
proof fn lemma_value_split(ts: Seq<(nat, nat)>, base: nat, j: int)
    requires
        0 <= j <= ts.len(),
    ensures
        terms_value(ts, base) == terms_value(ts.take(j), base) + terms_value(ts.skip(j), base),
    decreases j,
{
    if j == 0 {
        assert(ts.skip(0) =~= ts);
        assert(ts.take(0).len() == 0);
    } else {
        let rest = ts.skip(1);
        lemma_value_split(rest, base, j - 1);
        assert(rest.skip(j - 1) =~= ts.skip(j));
        assert(ts.take(j).skip(1) =~= rest.take(j - 1));
        assert(ts.take(j)[0] == ts[0]);
    }
}

/// An expansion is positional, and its top digit is nonzero unless it is the
/// single term of a number below the base.
pub proof fn lemma_expansion_positional(value: nat, base: nat)
    requires
        base >= 2,
    ensures
        positional(expansion(value, base), base),
        expansion(value, base).len() >= 1,
        expansion(value, base).len() > 1 ==> expansion(value, base)[0].0 >= 1,
{
    let es = expansion(value, base);
    let n = num_digits(value, base);
    lemma_num_digits_bracket(value, base);
    assert forall|i: int| 0 <= i < es.len() implies #[trigger] es[i].1 == es.len() - 1 - i && es[i].0
        < base by {
        lemma_mod_bound((value / power(base, (n - 1 - i) as nat)) as int, base as int);
    }
    if n > 1 {
        let p = power(base, (n - 1) as nat);
        lemma_power_positive(base, (n - 1) as nat);
        lemma_power_step(base, (n - 1) as nat);
        lemma_div_is_ordered(p as int, value as int, p as int);
        assert(p / p == 1) by {
            lemma_fundamental_div_mod_converse_div(p as int, p as int, 1, 0);
        }
        let q = value / p;
        assert(q < base) by {
            if q >= base {
                lemma_fundamental_div_mod(value as int, p as int);
                lemma_mod_bound(value as int, p as int);
                assert(value >= q * p) by (nonlinear_arith)
                    requires
                        value == p * q + value % p,
                        value % p >= 0,
                ;
                assert(q * p >= base * p) by (nonlinear_arith)
                    requires
                        q >= base,
                        p >= 1,
                ;
            }
        }
        lemma_small_mod(q, base);
    }
}

/// The list after borrowing at position `j`: digits before `j` are kept, the
/// digit at `j` loses one, and every digit after it becomes `base - 1`.
pub open spec fn borrowed(ts: Seq<(nat, nat)>, j: int, base: nat) -> Seq<(nat, nat)> {
    Seq::new(
        ts.len(),
        |i: int|
            if i < j {
                ts[i]
            } else if i == j {
                ((ts[j].0 - 1) as nat, ts[j].1)
            } else {
                ((base - 1) as nat, ts[i].1)
            },
    )
}

/// Borrowing at the lowest nonzero digit of a positional list keeps it
/// positional and takes exactly one from its value.
pub proof fn lemma_borrow_value(ts: Seq<(nat, nat)>, base: nat, j: int)
    requires
        base >= 2,
        positional(ts, base),
        0 <= j < ts.len(),
        ts[j].0 >= 1,
        forall|i: int| j < i < ts.len() ==> #[trigger] ts[i].0 == 0,
    ensures
        positional(borrowed(ts, j, base), base),
        terms_value(borrowed(ts, j, base), base) + 1 == terms_value(ts, base),
{
    let bs = borrowed(ts, j, base);
    let n = ts.len();
    let e = (n - 1 - j) as nat;
    assert(positional(bs, base));
    lemma_value_split(ts, base, j);
    lemma_value_split(bs, base, j);
    assert(bs.take(j) =~= ts.take(j));
    crate::base::lemma_suffix_value_step(ts, base, j);
    crate::base::lemma_suffix_value_step(bs, base, j);
    let zs = ts.skip(j + 1);
    assert forall|i: int| 0 <= i < zs.len() implies #[trigger] zs[i].0 == 0 by {
        assert(zs[i] == ts[j + 1 + i]);
    }
    lemma_zeros_value(zs, base);
    let ns = bs.skip(j + 1);
    assert(ns.len() == e);
    assert forall|i: int| 0 <= i < ns.len() implies #[trigger] ns[i] == (
        (base - 1) as nat,
        (ns.len() - 1 - i) as nat,
    ) by {
        assert(ns[i] == bs[j + 1 + i]);
    }
    lemma_top_digits_value(ns, base);
    let p = power(base, e);
    let d = ts[j].0;
    assert(ts[j].1 == e);
    assert(((d - 1) as nat) * p + p == d * p) by (nonlinear_arith)
        requires
            d >= 1,
    ;
}

/// The expansion of `b.number - 1`, found by borrowing from the lowest nonzero
/// digit of `b` and dropping a leading zero digit.
pub(crate) fn borrow_one(b: &Base) -> (r: Base)
    requires
        b.is_expansion(),
        b.number >= 1,
    ensures
        r.is_expansion(),
        r.number == b.number - 1,
        r.base == b.base,
{
    let ghost ts = b.terms();
    let ghost k = b.base as nat;
    proof {
        lemma_expansion_positional(b.number as nat, k);
        lemma_round_trip(b.number as nat, k);
    }
    let n = b.exponents.len();
    let mut j: usize = n - 1;
    while b.exponents[j].0.0 == 0
        invariant
            ts == b.terms(),
            n == ts.len(),
            terms_value(ts, k) == b.number,
            b.number >= 1,
            j < n,
            forall|i: int| j < i < n ==> #[trigger] ts[i].0 == 0,
        decreases j,
    {
        assert(ts[j as int].0 == 0);
        if j == 0 {
            proof {
                lemma_zeros_value(ts, k);
            }
        }
        j = j - 1;
    }
    let ghost bs = borrowed(ts, j as int, k);
    let mut out: Vec<(Multiplier, Power)> = Vec::new();
    let mut i: usize = 0;
    while i < n
        invariant
            ts == b.terms(),
            bs == borrowed(ts, j as int, k),
            positional(ts, k),
            k == b.base,
            n == ts.len(),
            j < n,
            ts[j as int].0 >= 1,
            i <= n,
            out@.len() == i,
            terms_of(out@) == bs.take(i as int),
        decreases n - i,
    {
        let (m, p) = b.exponents[i];
        assert(ts[i as int] == (m.0 as nat, p.0 as nat));
        let d = if i < j {
            m.0
        } else if i == j {
            m.0 - 1
        } else {
            b.base - 1
        };
        let ghost before = out@;
        out.push((Multiplier(d), p));
        assert(terms_of(out@) =~= bs.take(i + 1)) by {
            assert(out@ == before.push((Multiplier(d), p)));
            assert forall|x: int| 0 <= x < i implies #[trigger] terms_of(out@)[x] == terms_of(before)[x] by {
                assert(out@[x] == before[x]);
            }
        }
        i = i + 1;
    }
    assert(bs.take(n as int) =~= bs);
    proof {
        lemma_borrow_value(ts, k, j as int);
    }
    if n > 1 && out[0].0.0 == 0 {
        let ghost whole = out@;
        assert(terms_of(whole)[0].0 == out@[0].0.0);
        out.remove(0);
        proof {
            assert(j == 0) by {
                if j > 0 {
                    assert(bs[0] == ts[0]);
                }
            }
            let rest = bs.skip(1);
            assert(terms_of(out@) =~= rest) by {
                assert(out@ == whole.remove(0));
                assert forall|x: int| 0 <= x < rest.len() implies #[trigger] terms_of(out@)[x] == rest[x] by {
                    assert(out@[x] == whole[x + 1]);
                }
            }
            assert(positional(rest, k)) by {
                assert forall|x: int| 0 <= x < rest.len() implies #[trigger] rest[x].1 == rest.len() - 1
                    - x && rest[x].0 < k by {
                    assert(rest[x] == bs[x + 1]);
                }
            }
            assert(rest[0] == bs[1]);
            crate::base::lemma_suffix_value_step(bs, k, 0);
            assert(bs.skip(0) =~= bs);
            assert(terms_of(whole)[0] == bs[0]);
            assert(bs[0].0 == 0);
            let pw = power(k, bs[0].1);
            assert(bs[0].0 * pw == 0) by (nonlinear_arith)
                requires
                    bs[0].0 == 0,
            ;
            lemma_positional_expansion(rest, k);
        }
    } else {
        proof {
            lemma_positional_expansion(bs, k);
        }
    }
    let reduced = check_reduced(out.as_slice(), b.base);
    Base { number: b.number - 1, base: b.base, exponents: out, reduced }
}

} // verus!
