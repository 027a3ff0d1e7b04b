use goodstein::{
    run_sequence, Base, BaseError, GPow, GoodsteinSeq, Multiplier, Power, SequenceState,
    SequenceTerminated,
};

fn terms(list: &[(u32, u32)]) -> Vec<(Multiplier, Power)> {
    list.iter().map(|&(m, p)| (Multiplier(m), Power(p))).collect()
}

#[test]
fn generate_goodstein_seq() {
    let _100 = Base::from(100_u32, 2).unwrap();
    assert_eq!(_100.compute(), GoodsteinSeq::from(_100.clone()).get_compute());
}

#[test]
fn hereditary_exponents_of_hundred_in_base_two() {
    let g = GoodsteinSeq::from(Base::from(100, 2).unwrap());
    assert_eq!(g.get_num(), 100);
    assert!(!g.reduced);
    let kinds: Vec<&GPow> = g.g_exponents.iter().map(|(_, p)| p).collect();
    assert_eq!(kinds.len(), 7);
    assert_eq!(*kinds[0], GPow::NonReduced(Base::from(6, 2).unwrap()));
    assert_eq!(*kinds[1], GPow::NonReduced(Base::from(5, 2).unwrap()));
    assert_eq!(*kinds[2], GPow::NonReduced(Base::from(4, 2).unwrap()));
    assert_eq!(*kinds[3], GPow::NonReduced(Base::from(3, 2).unwrap()));
    assert_eq!(*kinds[4], GPow::Reduced(2));
    assert_eq!(*kinds[5], GPow::Reduced(1));
    assert_eq!(*kinds[6], GPow::Reduced(0));
    let multipliers: Vec<u32> = g.g_exponents.iter().map(|(m, _)| m.0).collect();
    assert_eq!(multipliers, vec![1, 1, 0, 0, 1, 0, 0]);
}

#[test]
fn bump_keeps_the_number() {
    let mut g = GoodsteinSeq::from(Base::from(100, 2).unwrap());
    g.bump_base();
    assert_eq!(g.get_num(), 100);
    assert_eq!(g.base_number.base, 3);
    assert_eq!(
        g.base_number.exponents,
        terms(&[(1, 6), (1, 5), (0, 4), (0, 3), (1, 3), (0, 1), (0, 0)])
    );
    // 6 = 110 in base 2: its exponent 2 becomes 3.
    let six = Base::base_bump(Base::from(6, 2).unwrap());
    assert_eq!(g.g_exponents[0].1, GPow::NonReduced(six));
    assert_eq!(g.g_exponents[4].1, GPow::Reduced(3));
    assert_eq!(g.g_exponents[5].1, GPow::Reduced(1));
    assert!(!g.reduced);
}

#[test]
fn subtract_one_lowers_the_number_by_one() {
    let mut g = GoodsteinSeq::from(Base::from(8, 8).unwrap());
    assert_eq!(g.substract_one(), Ok(()));
    assert_eq!(g.get_num(), 7);
    assert_eq!(g.base_number, Base::from(7, 8).unwrap());
    assert_eq!(g.g_exponents, vec![(Multiplier(7), GPow::Reduced(0))]);
    assert_eq!(g.get_compute(), Ok(7));
}

#[test]
fn subtract_one_borrows_across_zero_digits() {
    let mut g = GoodsteinSeq::from(Base::from(100, 2).unwrap());
    assert_eq!(g.substract_one(), Ok(()));
    assert_eq!(g.base_number, Base::from(99, 2).unwrap());
    assert_eq!(
        g.base_number.exponents,
        terms(&[(1, 6), (1, 5), (0, 4), (0, 3), (0, 2), (1, 1), (1, 0)])
    );
    let mut h = GoodsteinSeq::from(Base::from(27, 3).unwrap());
    assert_eq!(h.substract_one(), Ok(()));
    assert_eq!(h.base_number.exponents, terms(&[(2, 2), (2, 1), (2, 0)]));
}

#[test]
fn subtract_one_after_a_bump_uses_the_new_base() {
    let mut g = GoodsteinSeq::from(Base::from(4, 2).unwrap());
    g.bump_base();
    assert_eq!(g.substract_one(), Ok(()));
    assert_eq!(g.get_num(), 3);
    assert_eq!(g.base_number, Base::from(3, 3).unwrap());
    assert_eq!(g.get_compute(), Ok(3));
}

#[test]
fn subtract_one_on_zero_signals_termination() {
    let mut g = GoodsteinSeq::from(Base::from(0, 5).unwrap());
    let before = g.clone();
    assert_eq!(g.substract_one(), Err(SequenceTerminated));
    assert_eq!(g, before);
    assert_eq!(g.get_num(), 0);
}

#[test]
fn run_counts_down_with_growing_base() {
    let mut run = run_sequence(3, 2).unwrap();
    assert_eq!(run.next_step(), Some((2, 3)));
    assert_eq!(run.next_step(), Some((3, 2)));
    assert_eq!(run.next_step(), Some((4, 1)));
    assert_eq!(run.next_step(), Some((5, 0)));
    assert_eq!(run.state, SequenceState::Terminated);
    assert_eq!(run.next_step(), None);
    assert_eq!(run.next_step(), None);
}

#[test]
fn run_refuses_a_bad_base() {
    assert_eq!(run_sequence(3, 1), Err(BaseError::BaseOutOfRange));
    assert_eq!(run_sequence(3, 37), Err(BaseError::BaseOutOfRange));
}

#[test]
fn run_stops_when_the_base_cannot_grow() {
    let mut run = goodstein::GoodsteinRun {
        state: SequenceState::Running(GoodsteinSeq::from(Base {
            number: 1,
            base: u32::MAX,
            exponents: vec![(Multiplier(1), Power(0))],
            reduced: true,
        })),
    };
    assert_eq!(run.next_step(), Some((u32::MAX, 1)));
    assert_eq!(run.state, SequenceState::BaseExhausted);
    assert_eq!(run.next_step(), None);
}
