//! Positional digit strings of base-K numbers.
use vstd::prelude::*;
use crate::arith::{digit, lemma_digit_shift, num_digits};
use crate::base::{canonical_terms, expansion, Base, MAX_BASE};

verus! {

/// The digit symbols, one for each value below 36.
pub open spec fn digit_symbols() -> Seq<char> {
    seq![
        '0', '1', '2', '3', '4', '5', '6', '7', '8', '9', 'a', 'b', 'c', 'd', 'e', 'f', 'g', 'h',
        'i', 'j', 'k', 'l', 'm', 'n', 'o', 'p', 'q', 'r', 's', 't', 'u', 'v', 'w', 'x', 'y', 'z',
    ]
}

/// The symbol of digit `d`.
pub open spec fn digit_char(d: nat) -> char {
    digit_symbols()[d as int]
}

/// Exponents strictly decrease along the term list.
pub open spec fn strictly_decreasing(ts: Seq<(nat, nat)>) -> bool {
    forall|i: int, j: int| 0 <= i < j < ts.len() ==> #[trigger] ts[i].1 > #[trigger] ts[j].1
}

/// Some term of the list has exponent `e`.
pub open spec fn has_slot(ts: Seq<(nat, nat)>, e: nat) -> bool {
    exists|j: int| 0 <= j < ts.len() && #[trigger] ts[j].1 == e
}

/// The multiplier at exponent `e`, or zero where no term has that exponent.
pub open spec fn slot_digit(ts: Seq<(nat, nat)>, e: nat) -> nat {
    if has_slot(ts, e) {
        ts[choose|j: int| 0 <= j < ts.len() && #[trigger] ts[j].1 == e].0
    } else {
        0
    }
}

/// One symbol per exponent from the highest present one down to zero.
pub open spec fn rendering(ts: Seq<(nat, nat)>) -> Seq<char> {
    if ts.len() == 0 {
        Seq::empty()
    } else {
        Seq::new(ts[0].1 + 1, |k: int| digit_char(slot_digit(ts, (ts[0].1 - k) as nat)))
    }
}

/// The slot of a term holds that term's multiplier.
proof fn lemma_slot_of_term(ts: Seq<(nat, nat)>, i: int)
    requires
        strictly_decreasing(ts),
        0 <= i < ts.len(),
    ensures
        slot_digit(ts, ts[i].1) == ts[i].0,
{
    assert(has_slot(ts, ts[i].1));
    let j = choose|j: int| 0 <= j < ts.len() && #[trigger] ts[j].1 == ts[i].1;
    if j < i {
        assert(ts[j].1 > ts[i].1);
    } else if i < j {
        assert(ts[i].1 > ts[j].1);
    }
}

/// A slot strictly between two neighbouring terms holds zero.
proof fn lemma_gap_slot(ts: Seq<(nat, nat)>, i: int, e: nat)
    requires
        strictly_decreasing(ts),
        0 <= i <= ts.len(),
        i < ts.len() ==> ts[i].1 < e,
        i > 0 ==> e < ts[i - 1].1,
    ensures
        slot_digit(ts, e) == 0,
{
    if has_slot(ts, e) {
        let j = choose|j: int| 0 <= j < ts.len() && #[trigger] ts[j].1 == e;
        if j < i {
            if j < i - 1 {
                assert(ts[j].1 > ts[i - 1].1);
            }
        } else {
            if j > i {
                assert(ts[i].1 > ts[j].1);
            }
        }
    }
}

impl Base {
    /// The positional digits of the number, most significant first: one symbol
    /// per exponent from the highest present one down to zero, `0` where the
    /// term list has no term.
    pub fn to_display_string(&self) -> (r: String)
        requires
            strictly_decreasing(self.terms()),
            forall|i: int| 0 <= i < self.terms().len() ==> #[trigger] self.terms()[i].0 < MAX_BASE,
        ensures
            r@ == rendering(self.terms()),
    {
        let symbols = "0123456789abcdefghijklmnopqrstuvwxyz";
        proof {
            reveal_strlit("0123456789abcdefghijklmnopqrstuvwxyz");
        }
        assert(symbols@ =~= digit_symbols());
        let ghost ts = self.terms();
        let mut out = String::new();
        if self.exponents.len() == 0 {
            assert(out@ =~= rendering(ts));
            return out;
        }
        let top: u64 = self.exponents[0].1.0 as u64;
        let ghost want = rendering(ts);
        let mut written: u64 = 0;
        let mut i: usize = 0;
        while i < self.exponents.len()
            invariant
                ts == self.terms(),
                symbols@ == digit_symbols(),
                strictly_decreasing(ts),
                forall|j: int| 0 <= j < ts.len() ==> #[trigger] ts[j].0 < MAX_BASE,
                ts.len() > 0,
                top == ts[0].1,
                want == rendering(ts),
                i <= ts.len(),
                i == 0 ==> written == 0,
                i > 0 ==> written == top - ts[i - 1].1 + 1,
                out@ == want.take(written as int),
            decreases ts.len() - i,
        {
            let (m, p) = self.exponents[i];
            assert(ts[i as int] == (m.0 as nat, p.0 as nat));
            if i > 0 {
                assert(ts[i - 1].1 > ts[i as int].1);
            }
            while top - written > p.0 as u64
                invariant
                    ts == self.terms(),
                    symbols@ == digit_symbols(),
                    strictly_decreasing(ts),
                    ts.len() > 0,
                    top == ts[0].1,
                    want == rendering(ts),
                    i < ts.len(),
                    ts[i as int].1 == p.0,
                    i == 0 ==> written == 0,
                    i > 0 ==> written >= top - ts[i - 1].1 + 1,
                    written <= top - p.0,
                    out@ == want.take(written as int),
                decreases top - written,
            {
                proof {
                    lemma_gap_slot(ts, i as int, (top - written) as nat);
                }
                out.append(symbols.substring_char(0, 1));
                written = written + 1;
                assert(out@ =~= want.take(written as int));
            }
            proof {
                lemma_slot_of_term(ts, i as int);
            }
            let d = m.0 as usize;
            out.append(symbols.substring_char(d, d + 1));
            written = written + 1;
            assert(out@ =~= want.take(written as int));
            i = i + 1;
        }
        while written <= top
            invariant
                ts == self.terms(),
                symbols@ == digit_symbols(),
                strictly_decreasing(ts),
                ts.len() > 0,
                top == ts[0].1,
                want == rendering(ts),
                written >= top - ts[ts.len() - 1].1 + 1,
                written <= top + 1,
                out@ == want.take(written as int),
            decreases top + 1 - written,
        {
            proof {
                lemma_gap_slot(ts, ts.len() as int, (top - written) as nat);
            }
            out.append(symbols.substring_char(0, 1));
            written = written + 1;
            assert(out@ =~= want.take(written as int));
        }
        assert(want.take(written as int) =~= want);
        out
    }
}

/// The usual positional string of `value` in base `base`, built one remainder
/// at a time: the digits of `value / base`, then the symbol of `value % base`.
pub open spec fn radix_digits(value: nat, base: nat) -> Seq<char>
    decreases value,
{
    if base < 2 || value < base {
        seq![digit_char(value % 36)]
    } else {
        proof {
            vstd::arithmetic::div_mod::lemma_div_decreases(value as int, base as int);
        }
        radix_digits(value / base, base).push(digit_char(value % base))
    }
}

/// The radix string lists the expansion's digits, most significant first.
proof fn lemma_radix_digits_index(value: nat, base: nat)
    requires
        2 <= base <= 36,
    ensures
        radix_digits(value, base).len() == num_digits(value, base),
        forall|k: int|
            0 <= k < num_digits(value, base) ==> #[trigger] radix_digits(value, base)[k]
                == digit_char(digit(value, base, (num_digits(value, base) - 1 - k) as nat)),
    decreases value,
{
    lemma_digit_shift(value, base, 0);
    if value < base {
        vstd::arithmetic::div_mod::lemma_small_mod(value, base);
        vstd::arithmetic::div_mod::lemma_small_mod(value, 36);
    } else {
        let q = value / base;
        vstd::arithmetic::div_mod::lemma_div_decreases(value as int, base as int);
        lemma_radix_digits_index(q, base);
        let n = num_digits(value, base);
        assert forall|k: int| 0 <= k < n implies #[trigger] radix_digits(value, base)[k]
            == digit_char(digit(value, base, (n - 1 - k) as nat)) by {
            if k < n - 1 {
                lemma_digit_shift(value, base, (n - 2 - k) as nat);
            }
        }
    }
}

/// The expansion of a number is what `to_display_string` accepts, and its
/// rendering is the usual positional string of the number in that base.
pub proof fn lemma_display_is_radix(value: nat, base: nat)
    requires
        2 <= base <= 36,
    ensures
        strictly_decreasing(expansion(value, base)),
        forall|i: int| 0 <= i < expansion(value, base).len() ==> #[trigger] expansion(value, base)[i].0 < base,
        rendering(expansion(value, base)) == radix_digits(value, base),
{
    let n = num_digits(value, base);
    let es = expansion(value, base);
    crate::arith::lemma_num_digits_bracket(value, base);
    assert forall|i: int| 0 <= i < es.len() implies #[trigger] es[i].0 < base by {
        vstd::arithmetic::div_mod::lemma_mod_bound(
            (value / crate::arith::power(base, (n - 1 - i) as nat)) as int,
            base as int,
        );
    }
    lemma_radix_digits_index(value, base);
    assert(strictly_decreasing(es));
    assert(es[0].1 == n - 1);
    assert forall|k: int| 0 <= k < n implies #[trigger] rendering(es)[k] == radix_digits(value, base)[k] by {
        lemma_slot_of_term(es, k);
        assert(es[k].1 == n - 1 - k);
    }
    assert(rendering(es) =~= radix_digits(value, base));
}

/// The digit string of an expansion at a base up to 36, such as one built by
/// `Base::from`, is the usual positional string of its number: the expansion
/// meets what `to_display_string` asks, and its rendering is `radix_digits`.
pub proof fn lemma_display_of_expansion(b: Base)
    requires
        b.is_expansion(),
        b.base <= MAX_BASE,
    ensures
        strictly_decreasing(b.terms()),
        forall|i: int| 0 <= i < b.terms().len() ==> #[trigger] b.terms()[i].0 < MAX_BASE,
        rendering(b.terms()) == radix_digits(b.number as nat, b.base as nat),
{
    lemma_display_is_radix(b.number as nat, b.base as nat);
}

} // verus!
