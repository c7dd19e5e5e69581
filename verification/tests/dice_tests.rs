use dice_expr::{keep_dice, roll_dice, DiceModifier, DieRoller, ThreadRoller};
use rand::rngs::mock::StepRng;
use rand::Rng;

/// rand's mock generator, rolling a die with `gen_range(1..=sides)`.
struct Stepper(StepRng);

impl Stepper {
    fn new(initial: u64, increment: u64) -> Stepper {
        Stepper(StepRng::new(initial, increment))
    }
}

impl DieRoller for Stepper {
    // The record of draws is a specification function: only proofs use it, and no test runs it.
    fn draws(&self) -> vstd::seq::Seq<(u64, u64)> {
        unreachable!("the record of draws exists only in proofs")
    }

    fn roll(&mut self, sides: u64) -> u64 {
        self.0.gen_range(1..=sides)
    }
}

#[test]
fn step_rng_rolls_ones() {
    let mut rng = Stepper::new(0, 1);
    assert_eq!(roll_dice(&mut rng, 4, 6), vec![1, 1, 1, 1]);
    let mut rng = Stepper::new(0, 1);
    assert_eq!(roll_dice(&mut rng, 1, 20), vec![1]);
}

#[test]
fn zero_dice_roll_nothing() {
    let mut rng = Stepper::new(0, 1);
    assert!(roll_dice(&mut rng, 0, 6).is_empty());
}

#[test]
fn rolls_stay_within_the_faces() {
    let mut rng = ThreadRoller::new(rand::thread_rng());
    for sides in [1u64, 2, 6, 20, 100, u64::MAX] {
        let rolls = roll_dice(&mut rng, 50, sides);
        assert_eq!(rolls.len(), 50);
        assert!(rolls.iter().all(|&r| 1 <= r && r <= sides));
    }
    let mut step = Stepper::new(u64::MAX / 3, u64::MAX / 7);
    for _ in 0..100 {
        let r = step.roll(6);
        assert!((1..=6).contains(&r));
    }
}

#[test]
fn keep_highest_of_equal_rolls() {
    let kept = keep_dice(&vec![1, 1, 1, 1], Some(DiceModifier::KeepHighest(3)));
    assert_eq!(kept, vec![1, 1, 1]);
}

#[test]
fn keep_highest_sorts_from_highest() {
    let rolls = vec![3, 1, 4, 1, 5, 9, 2, 6];
    assert_eq!(keep_dice(&rolls, Some(DiceModifier::KeepHighest(3))), vec![9, 6, 5]);
    assert_eq!(
        keep_dice(&rolls, Some(DiceModifier::KeepHighest(100))),
        vec![9, 6, 5, 4, 3, 2, 1, 1]
    );
    assert_eq!(keep_dice(&rolls, Some(DiceModifier::KeepHighest(0))), Vec::<u64>::new());
}

#[test]
fn no_modifier_keeps_every_roll_in_order() {
    let rolls = vec![3, 1, 4, 1, 5];
    assert_eq!(keep_dice(&rolls, None), rolls);
    assert_eq!(keep_dice(&vec![], None), Vec::<u64>::new());
}

#[test]
fn kept_rolls_are_the_highest() {
    let mut rng = Stepper::new(12345, 0x9e37_79b9_7f4a_7c15);
    for count in 0..12u64 {
        let rolls = roll_dice(&mut rng, count, 6);
        for k in 0..14u32 {
            let kept = keep_dice(&rolls, Some(DiceModifier::KeepHighest(k)));
            assert_eq!(kept.len(), (k as usize).min(rolls.len()));
            assert!(kept.windows(2).all(|w| w[0] >= w[1]));
            let mut rest = rolls.clone();
            for x in &kept {
                let pos = rest.iter().position(|y| y == x).expect("kept roll is a roll");
                rest.remove(pos);
            }
            if let Some(lowest_kept) = kept.last() {
                assert!(rest.iter().all(|r| r <= lowest_kept));
            }
        }
    }
}
