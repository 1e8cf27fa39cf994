use dice_dist::dice::{Die, DiceError, DiceSet};
use dice_dist::roll::Roll;

#[test]
fn roll_single() {
    let die = DiceSet::from_u8(10);
    die.roll();
}

#[test]
fn roll_multiple() {
    let dice = DiceSet::new(vec![Die::new(6); 10]);
    println!("{:?}", dice.roll().into_string());
}

#[test]
fn roll_from_str() {
    let dice: DiceSet = DiceSet::from_str("2d6 3d8 8d4").unwrap();
    println!("{}", dice.roll().into_string());
}

#[test]
fn roll_values_in_range() {
    let dice = DiceSet::from_str("5d6 2d8").unwrap();
    let outcome = dice.roll();
    assert_eq!(outcome.dice.len(), outcome.outcomes.len());
    for (i, d) in outcome.dice.iter().enumerate() {
        assert!(1 <= outcome.outcomes[i] && outcome.outcomes[i] <= d.n);
    }
}

#[test]
fn sorting_and_access() {
    let set = DiceSet::new(vec![Die::new(8), Die::new(4), Die::new(6)]);
    assert_eq!(set.len(), 3);
    assert_eq!(set.get(0).unwrap().n, 4);
    assert_eq!(set.get(1).unwrap().n, 6);
    assert_eq!(set.get(2).unwrap().n, 8);
    assert!(set.get(3).is_none());
    let dice = set.into_inner();
    assert_eq!(dice, vec![Die::new(4), Die::new(6), Die::new(8)]);
}

#[test]
fn partition_splits_in_order() {
    let set = DiceSet::from_str("2d6 1d8").unwrap();
    let (left, right) = set.partition(1);
    assert_eq!(left.len(), 1);
    assert_eq!(right.len(), 2);
    assert_eq!(left.get(0).unwrap().n, 6);
    assert_eq!(right.get(0).unwrap().n, 6);
    assert_eq!(right.get(1).unwrap().n, 8);
}

#[test]
fn die_labels() {
    assert_eq!(Die::new(6).to_string(), "d6");
    assert_eq!(Die::new(255).to_string(), "d255");
    let set = DiceSet::from_str("2d6 1d4").unwrap();
    assert_eq!(set.to_string(), "d4 d6 d6");
}

#[test]
fn die_from_str_forms() {
    assert_eq!(Die::from_str("d6").unwrap().n, 6);
    assert_eq!(Die::from_str("6").unwrap().n, 6);
    assert_eq!(Die::from_str("+20").unwrap().n, 20);
    assert_eq!(Die::from_str("d").unwrap_err(), DiceError::SidesNotInteger);
    assert_eq!(Die::from_str("d0").unwrap_err(), DiceError::SidesNotInteger);
    assert_eq!(Die::from_str("0").unwrap_err(), DiceError::SidesNotInteger);
    assert_eq!(Die::from_str("dd6").unwrap_err(), DiceError::SidesNotInteger);
}

#[test]
fn parse_errors() {
    assert_eq!(DiceSet::from_str("abc").unwrap_err(), DiceError::BadFormat);
    assert_eq!(DiceSet::from_str("").unwrap_err(), DiceError::BadFormat);
    assert_eq!(DiceSet::from_str("2d6 3x8").unwrap_err(), DiceError::BadFormat);
    assert_eq!(DiceSet::from_str("2dx").unwrap_err(), DiceError::SidesNotInteger);
    assert_eq!(DiceSet::from_str("2d300").unwrap_err(), DiceError::SidesNotInteger);
    assert_eq!(DiceSet::from_str("2d0").unwrap_err(), DiceError::SidesNotInteger);
    assert_eq!(DiceSet::from_str("2d").unwrap_err(), DiceError::SidesNotInteger);
    assert_eq!(DiceSet::from_str("xd6").unwrap_err(), DiceError::CountNotInteger);
    assert_eq!(DiceSet::from_str("d6").unwrap_err(), DiceError::CountNotInteger);
}

#[test]
fn parse_counts_and_sorts() {
    let set = DiceSet::from_str("2d6 3d4").unwrap();
    assert_eq!(set.len(), 5);
    let dice = set.into_inner();
    assert_eq!(
        dice,
        vec![Die::new(4), Die::new(4), Die::new(4), Die::new(6), Die::new(6)]
    );
}

#[test]
fn outcome_traversal_and_rendering() {
    let mut o = dice_dist::roll::Outcome::new(vec![Die::new(6), Die::new(8)], vec![4, 7]);
    assert_eq!(o.next(), Some((Die::new(6), 4)));
    assert_eq!(o.next(), Some((Die::new(8), 7)));
    assert_eq!(o.next(), None);
    let o2 = dice_dist::roll::Outcome::new(vec![Die::new(6), Die::new(8)], vec![4, 7]);
    assert_eq!(o2.into_string(), "d6: 4\nd8: 7");
}
