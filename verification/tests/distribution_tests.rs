use dice_dist::dice::{Die, DiceSet};
use dice_dist::probability::Distribution;

#[test]
fn two_d6() {
    let dice: DiceSet = DiceSet::from_str("2d6").unwrap();
    println!("{:?}", Distribution::try_from(dice).unwrap().into_string());
}

#[test]
fn test_ncr() {}

fn counts_of(mut d: Distribution) -> Vec<u64> {
    let mut out = Vec::new();
    while let Some(c) = d.next() {
        out.push(c.as_u64().unwrap());
    }
    out
}

#[test]
fn known_values_two_d6() {
    let dice = DiceSet::from_str("2d6").unwrap();
    let dist = Distribution::try_from(dice).unwrap();
    assert_eq!(dist.len(), 11);
    assert_eq!(
        dist.into_string(),
        "min: 2, max: 12, size: 11, n: 2\n2: 1\n3: 2\n4: 3\n5: 4\n6: 5\n7: 6\n8: 5\n9: 4\n10: 3\n11: 2\n12: 1"
    );
    let dist2 = Distribution::try_from(DiceSet::from_str("2d6").unwrap()).unwrap();
    let counts = counts_of(dist2);
    assert_eq!(counts, vec![1, 2, 3, 4, 5, 6, 5, 4, 3, 2, 1]);
    assert_eq!(counts.iter().sum::<u64>(), 36);
}

#[test]
fn scaling_two_d4() {
    let dice = DiceSet::from_str("1d4 1d4").unwrap();
    let dist = Distribution::try_from(dice).unwrap();
    let counts = counts_of(dist);
    assert_eq!(counts, vec![1, 2, 3, 4, 3, 2, 1]);
    assert_eq!(counts.iter().sum::<u64>(), 16);
}

#[test]
fn base_case_single_die() {
    let dist = Distribution::try_from(DiceSet::from_u8(20)).unwrap();
    assert_eq!(dist.len(), 20);
    let counts = counts_of(dist);
    assert_eq!(counts, vec![1; 20]);
}

#[test]
fn empty_multiset() {
    let dist = Distribution::try_from(DiceSet::new(Vec::new())).unwrap();
    assert_eq!(dist.len(), 0);
    let mut dist = dist;
    assert!(dist.next().is_none());
    assert_eq!(dist.into_string(), "min: 0, max: 0, size: 0, n: 0");
}

#[test]
fn conservation_product_of_faces() {
    let dist = Distribution::try_from(DiceSet::from_str("2d6 1d8").unwrap()).unwrap();
    let counts = counts_of(dist);
    assert_eq!(counts.iter().sum::<u64>(), 6 * 6 * 8);
    let dist = Distribution::try_from(DiceSet::from_str("8d4").unwrap()).unwrap();
    let counts = counts_of(dist);
    assert_eq!(counts.iter().sum::<u64>(), 65536);
}

#[test]
fn symmetry_of_counts() {
    let dist = Distribution::try_from(DiceSet::from_str("3d6 1d4").unwrap()).unwrap();
    let counts = counts_of(dist);
    let n = counts.len();
    for i in 0..n {
        assert_eq!(counts[i], counts[n - 1 - i]);
    }
}

#[test]
fn combination_order_does_not_matter() {
    let a = Distribution::try_from(DiceSet::from_str("2d6").unwrap()).unwrap();
    let b = Distribution::try_from(DiceSet::from_str("1d8").unwrap()).unwrap();
    let ab = a.add(b).into_string();
    let a2 = Distribution::try_from(DiceSet::from_str("2d6").unwrap()).unwrap();
    let b2 = Distribution::try_from(DiceSet::from_str("1d8").unwrap()).unwrap();
    let ba = b2.add(a2).into_string();
    let direct = Distribution::try_from(DiceSet::from_str("2d6 1d8").unwrap())
        .unwrap()
        .into_string();
    assert_eq!(ab, ba);
    assert_eq!(ab, direct);
}

#[test]
fn exact_probability_fractions() {
    let dist = Distribution::try_from(DiceSet::from_str("2d6").unwrap()).unwrap();
    let fractions = dist.probabilities();
    assert_eq!(fractions.len(), 11);
    for (count, total) in &fractions {
        assert_eq!(total.as_u64(), Some(36));
        assert!(count.as_u64().unwrap() >= 1);
    }
    assert_eq!(fractions[0].0.as_u64(), Some(1));
    assert_eq!(fractions[5].0.as_u64(), Some(6));
}

#[test]
fn count_lookup() {
    let dist = Distribution::try_from(DiceSet::from_str("2d6").unwrap()).unwrap();
    assert_eq!(dist.get(7).unwrap().as_u64(), Some(6));
    assert_eq!(dist.get(2).unwrap().as_u64(), Some(1));
    assert!(dist.get(1).is_none());
    assert!(dist.get(13).is_none());
}

#[test]
fn large_counts_exceed_a_machine_word() {
    // 40 ten-sided dice: 10^40 outcome tuples in total
    let mut dice = Vec::new();
    for _ in 0..40 {
        dice.push(Die::new(10));
    }
    let mut dist = Distribution::try_from(DiceSet::new(dice)).unwrap();
    let mut total = dice_dist::bignat::BigNat::zero();
    while let Some(c) = dist.next() {
        total = total.add(&c);
    }
    assert_eq!(
        total.to_decimal(),
        "10000000000000000000000000000000000000000"
    );
}
