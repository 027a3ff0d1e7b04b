//! Goodstein states: a base-K number together with its hereditary exponents,
//! and the two transforms of the sequence, base bump and subtract-one.
use vstd::prelude::*;
use crate::base::{bump_terms, decompose, Base, BaseError, Multiplier, Power, MAX_BASE, MIN_BASE};
use crate::borrow::borrow_one;

verus! {

/// The exponent of a term in hereditary notation: kept as is when it is at
/// most the base, written as a base-K number of its own when it exceeds it.
#[derive(Debug, Clone, PartialEq, Eq)]
pub enum GPow {
    Reduced(u32),
    NonReduced(Base),
}

/// A base-K number with the hereditary form of each of its exponents.
#[derive(Debug, Clone, PartialEq, Eq)]
pub struct GoodsteinSeq {
    /// The number, with its terms at the current base.
    pub base_number: Base,
    /// One (multiplier, hereditary exponent) pair per term of `base_number`.
    pub g_exponents: Vec<(Multiplier, GPow)>,
    /// Whether every exponent of `base_number` is below the base.
    pub reduced: bool,
}

/// Subtract-one was asked of a state whose value is already zero: the
/// sequence has ended.
#[derive(Debug, Clone, Copy, PartialEq, Eq, Structural)]
pub struct SequenceTerminated;

/// A written-out exponent is a number at base `k`.
pub open spec fn at_base(g: GPow, k: nat) -> bool {
    match g {
        GPow::Reduced(_) => true,
        GPow::NonReduced(b) => b.base == k,
    }
}

/// `g` is the hereditary form of exponent `e` at base `k`.
pub open spec fn hereditary_exponent(g: GPow, e: nat, k: nat) -> bool {
    match g {
        GPow::Reduced(x) => e <= k && x == e,
        GPow::NonReduced(b) => e > k && b.is_expansion() && b.number == e && b.base == k,
    }
}

/// `gs` pairs each term of `ts` with the hereditary form of its exponent at base `k`.
pub open spec fn hereditary_terms(
    gs: Seq<(Multiplier, GPow)>,
    ts: Seq<(Multiplier, Power)>,
    k: nat,
) -> bool {
    &&& gs.len() == ts.len()
    &&& forall|i: int|
        0 <= i < gs.len() ==> #[trigger] gs[i].0 == ts[i].0 && hereditary_exponent(
            gs[i].1,
            ts[i].1.0 as nat,
            k,
        )
}

/// `new` is `old` read at base `k + 1`: a kept exponent equal to `k` becomes
/// `k + 1`, a written-out exponent is itself bumped.
pub open spec fn bumped_exponent(old: GPow, new: GPow, k: nat) -> bool {
    match (old, new) {
        (GPow::Reduced(e), GPow::Reduced(e2)) => e2 == if e == k {
            k + 1
        } else {
            e as nat
        },
        (GPow::NonReduced(b), GPow::NonReduced(b2)) => {
            &&& b2.number == b.number
            &&& b2.base == b.base + 1
            &&& b2.terms() == bump_terms(b.terms(), b.base as nat)
            &&& b2.reduced == b.reduced
        },
        _ => false,
    }
}

/// `new` pairs the multipliers of `old` with its exponents read at base `k + 1`.
pub open spec fn bumped_terms(old: Seq<(Multiplier, GPow)>, new: Seq<(Multiplier, GPow)>, k: nat) -> bool {
    &&& new.len() == old.len()
    &&& forall|i: int|
        0 <= i < old.len() ==> #[trigger] new[i].0 == old[i].0 && bumped_exponent(old[i].1, new[i].1, k)
}

/// The hereditary form of exponent `e` at base `k`.
fn classify(e: u32, k: u32) -> (r: GPow)
    requires
        k >= 2,
    ensures
        hereditary_exponent(r, e as nat, k as nat),
{
    if e > k {
        GPow::NonReduced(decompose(e, k))
    } else {
        GPow::Reduced(e)
    }
}

/// A hereditary exponent read at base `k + 1`.
fn bump_exponent(g: GPow, k: u32) -> (r: GPow)
    requires
        k < u32::MAX,
        at_base(g, k as nat),
    ensures
        bumped_exponent(g, r, k as nat),
{
    match g {
        GPow::Reduced(e) => {
            if e == k {
                GPow::Reduced(k + 1)
            } else {
                GPow::Reduced(e)
            }
        },
        GPow::NonReduced(b) => GPow::NonReduced(Base::base_bump(b)),
    }
}

impl GoodsteinSeq {
    /// The multipliers agree with the terms of `base_number`, every written-out
    /// exponent is at the current base, and `reduced` is that of `base_number`.
    pub open spec fn wf(&self) -> bool {
        &&& self.base_number.base >= 2
        &&& self.g_exponents@.len() == self.base_number.exponents@.len()
        &&& forall|i: int|
            0 <= i < self.g_exponents@.len() ==> #[trigger] self.g_exponents@[i].0
                == self.base_number.exponents@[i].0
        &&& forall|i: int|
            0 <= i < self.g_exponents@.len() ==> at_base(
                #[trigger] self.g_exponents@[i].1,
                self.base_number.base as nat,
            )
        &&& self.reduced == self.base_number.reduced
    }

    /// Each exponent is in hereditary form at the current base.
    pub open spec fn is_hereditary(&self) -> bool {
        hereditary_terms(self.g_exponents@, self.base_number.exponents@, self.base_number.base as nat)
    }

    /// The hereditary form of a base-K number: each exponent above the base is
    /// written out as a base-K number, the others are kept.
    pub fn from(n: Base) -> (r: GoodsteinSeq)
        requires
            n.base >= 2,
        ensures
            r.wf(),
            r.is_hereditary(),
            r.base_number == n,
            r.reduced == n.reduced,
    {
        let k = n.base;
        let mut g_exponents: Vec<(Multiplier, GPow)> = Vec::new();
        let mut i: usize = 0;
        while i < n.exponents.len()
            invariant
                k == n.base,
                k >= 2,
                i <= n.exponents@.len(),
                g_exponents@.len() == i,
                forall|j: int|
                    0 <= j < i ==> #[trigger] g_exponents@[j].0 == n.exponents@[j].0
                        && hereditary_exponent(g_exponents@[j].1, n.exponents@[j].1.0 as nat, k as nat),
            decreases n.exponents@.len() - i,
        {
            let (m, p) = n.exponents[i];
            let g = classify(p.0, k);
            let ghost before = g_exponents@;
            g_exponents.push((m, g));
            assert forall|j: int| 0 <= j < i + 1 implies #[trigger] g_exponents@[j].0
                == n.exponents@[j].0 && hereditary_exponent(
                g_exponents@[j].1,
                n.exponents@[j].1.0 as nat,
                k as nat,
            ) by {
                if j < i {
                    assert(g_exponents@[j] == before[j]);
                    assert(before[j].0 == n.exponents@[j].0);
                }
            }
            i = i + 1;
        }
        assert forall|j: int| 0 <= j < g_exponents@.len() implies at_base(
            #[trigger] g_exponents@[j].1,
            k as nat,
        ) by {
            assert(g_exponents@[j].0 == n.exponents@[j].0);
            assert(hereditary_exponent(g_exponents@[j].1, n.exponents@[j].1.0 as nat, k as nat));
        }
        let reduced = n.reduced;
        GoodsteinSeq { base_number: n, g_exponents, reduced }
    }

    /// The number the state stands for.
    pub fn get_num(&self) -> (r: u32)
        ensures
            r == self.base_number.number,
    {
        self.base_number.number
    }

    /// The number read back from the terms of `base_number`.
    pub fn get_compute(&self) -> (r: Result<u32, BaseError>)
        ensures
            r == self.base_number.computed(),
    {
        self.base_number.compute()
    }

    /// Moves the state from base K to K + 1. The number is unchanged; an
    /// exponent equal to K becomes K + 1, every written-out exponent is bumped
    /// in the same way, all other exponents are kept.
    pub fn bump_base(&mut self)
        requires
            old(self).wf(),
            old(self).base_number.base < u32::MAX,
        ensures
            final(self).wf(),
            final(self).base_number.number == old(self).base_number.number,
            final(self).base_number.base == old(self).base_number.base + 1,
            final(self).base_number.terms() == bump_terms(
                old(self).base_number.terms(),
                old(self).base_number.base as nat,
            ),
            final(self).reduced == old(self).reduced,
            bumped_terms(
                old(self).g_exponents@,
                final(self).g_exponents@,
                old(self).base_number.base as nat,
            ),
    {
        let mut taken = GoodsteinSeq {
            base_number: Base { number: 0, base: 2, exponents: Vec::new(), reduced: true },
            g_exponents: Vec::new(),
            reduced: true,
        };
        let ghost prev = *self;
        core::mem::swap(self, &mut taken);
        assert(taken == prev);
        let GoodsteinSeq { base_number, g_exponents, reduced } = taken;
        let k = base_number.base;
        let ghost orig = g_exponents@;
        let ghost terms = base_number.exponents@;
        let mut rest = g_exponents;
        let mut bumped: Vec<(Multiplier, GPow)> = Vec::new();
        while rest.len() > 0
            invariant
                k < u32::MAX,
                bumped@.len() <= orig.len(),
                rest@ == orig.skip(bumped@.len() as int),
                forall|j: int|
                    0 <= j < orig.len() ==> at_base(#[trigger] orig[j].1, k as nat),
                forall|j: int|
                    0 <= j < bumped@.len() ==> #[trigger] bumped@[j].0 == orig[j].0
                        && bumped_exponent(orig[j].1, bumped@[j].1, k as nat),
            decreases rest@.len(),
        {
            let ghost at = bumped@.len() as int;
            let (m, g) = rest.remove(0);
            assert(orig[at] == (m, g));
            let b = bump_exponent(g, k);
            bumped.push((m, b));
            assert(rest@ =~= orig.skip(bumped@.len() as int));
        }
        assert(bumped@.len() == orig.len());
        assert(orig.len() == terms.len());
        let ghost old_terms = base_number.terms();
        let base_number = Base::base_bump(base_number);
        assert(base_number.terms().len() == base_number.exponents@.len());
        assert(bump_terms(old_terms, k as nat).len() == terms.len());
        assert forall|j: int| 0 <= j < bumped@.len() implies #[trigger] bumped@[j].0
            == base_number.exponents@[j].0 by {
            assert(bumped@[j].0 == orig[j].0);
            assert(base_number.terms()[j] == bump_terms(old_terms, k as nat)[j]);
            assert(base_number.terms()[j].0 == old_terms[j].0);
            assert(old_terms[j].0 == terms[j].0.0 as nat);
            assert(base_number.terms()[j].0 == base_number.exponents@[j].0.0 as nat);
            assert(orig[j].0 == terms[j].0);
        }
        assert forall|j: int| 0 <= j < bumped@.len() implies at_base(
            #[trigger] bumped@[j].1,
            base_number.base as nat,
        ) by {
            assert(bumped@[j].0 == orig[j].0);
            assert(at_base(orig[j].1, k as nat));
        }
        assert(k == prev.base_number.base);
        assert(bumped_terms(prev.g_exponents@, bumped@, k as nat));
        *self = GoodsteinSeq { base_number, g_exponents: bumped, reduced };
    }

    /// Lowers the number by one and writes the result in hereditary form at the
    /// current base: the lowest nonzero digit of the expansion loses one and
    /// every digit below it becomes K - 1. On a state whose number is zero
    /// the sequence has already ended: nothing changes and `SequenceTerminated`
    /// comes back.
    pub fn substract_one(&mut self) -> (r: Result<(), SequenceTerminated>)
        requires
            old(self).wf(),
        ensures
            old(self).base_number.number == 0 ==> r == Err::<(), SequenceTerminated>(SequenceTerminated)
                && *final(self) == *old(self),
            old(self).base_number.number > 0 ==> {
                &&& r == Ok::<(), SequenceTerminated>(())
                &&& final(self).wf()
                &&& final(self).is_hereditary()
                &&& final(self).base_number.is_expansion()
                &&& final(self).base_number.number == old(self).base_number.number - 1
                &&& final(self).base_number.base == old(self).base_number.base
            },
    {
        let number = self.base_number.number;
        if number == 0 {
            return Err(SequenceTerminated);
        }
        // After a bump the terms are still those read at the previous base, so
        // the borrow runs on the expansion of the number at the current base.
        let current = decompose(number, self.base_number.base);
        let lower = borrow_one(&current);
        *self = GoodsteinSeq::from(lower);
        Ok(())
    }
}

/// Where a run of the sequence stands.
#[derive(Debug, Clone, PartialEq, Eq)]
pub enum SequenceState {
    /// The next state to report.
    Running(GoodsteinSeq),
    /// The number reached zero; nothing more comes.
    Terminated,
    /// The number is not yet zero but the base cannot grow past `u32::MAX`.
    BaseExhausted,
}

/// A Goodstein sequence produced one (base, number) pair at a time.
#[derive(Debug, Clone, PartialEq, Eq)]
pub struct GoodsteinRun {
    pub state: SequenceState,
}

/// One step of a run: `r` is what `next_step` hands out when it moves from
/// `old` to `new`.
pub open spec fn run_step(old: SequenceState, new: SequenceState, r: Option<(u32, u32)>) -> bool {
    match old {
        SequenceState::Running(s) => {
            let base = s.base_number.base;
            let number = s.base_number.number;
            &&& r == Some((base, number))
            &&& number == 0 ==> new == SequenceState::Terminated
            &&& number > 0 && base == u32::MAX ==> new == SequenceState::BaseExhausted
            &&& number > 0 && base < u32::MAX ==> match new {
                SequenceState::Running(t) => {
                    &&& t.base_number.number == number - 1
                    &&& t.base_number.base == base + 1
                    &&& t.base_number.is_expansion()
                    &&& t.is_hereditary()
                },
                _ => false,
            }
        },
        _ => r is None && new == old,
    }
}

impl GoodsteinRun {
    /// A running state is well formed and written in hereditary notation at its base.
    pub open spec fn wf(&self) -> bool {
        match self.state {
            SequenceState::Running(s) => s.wf() && s.is_hereditary() && s.base_number.is_expansion(),
            _ => true,
        }
    }

    /// Reports the current (base, number) pair and moves on: base bump, then
    /// subtract-one, until the number is zero.
    pub fn next_step(&mut self) -> (r: Option<(u32, u32)>)
        requires
            old(self).wf(),
        ensures
            final(self).wf(),
            run_step(old(self).state, final(self).state, r),
    {
        let mut taken = SequenceState::Terminated;
        core::mem::swap(&mut self.state, &mut taken);
        match taken {
            SequenceState::Running(mut s) => {
                let out = (s.base_number.base, s.base_number.number);
                if s.base_number.number == 0 {
                    self.state = SequenceState::Terminated;
                } else if s.base_number.base == u32::MAX {
                    self.state = SequenceState::BaseExhausted;
                } else {
                    s.bump_base();
                    let stepped = s.substract_one();
                    assert(stepped is Ok);
                    self.state = SequenceState::Running(s);
                }
                Some(out)
            },
            other => {
                self.state = other;
                None
            },
        }
    }
}

/// Starts the Goodstein sequence of `start_value` at base `start_base`;
/// refused unless `2 <= start_base <= 36`.
pub fn run_sequence(start_value: u32, start_base: u32) -> (r: Result<GoodsteinRun, BaseError>)
    ensures
        start_base < MIN_BASE || start_base > MAX_BASE ==> r == Err::<GoodsteinRun, BaseError>(
            BaseError::BaseOutOfRange,
        ),
        MIN_BASE <= start_base <= MAX_BASE ==> (r matches Ok(run) && run.wf() && match run.state {
            SequenceState::Running(s) => s.base_number.number == start_value
                && s.base_number.base == start_base,
            _ => false,
        }),
{
    match Base::from(start_value, start_base) {
        Ok(b) => Ok(GoodsteinRun { state: SequenceState::Running(GoodsteinSeq::from(b)) }),
        Err(e) => Err(e),
    }
}

} // verus!
