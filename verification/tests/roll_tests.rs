use libazdice::distribution::{
    Bonus, CutOff, Dice, DiceBag, DiceGroup, Drop, MinMax, ReRoll, ReRollType,
};
use libazdice::histogram::record;
use libazdice::parse::parse;
use libazdice::roll::{
    apply_drop, cut_off_values, explode, keep_from_sorted, reroll_values, roll_die, BonusResult,
    DiceResult, RollResults, EXPLOSION_LIMIT,
};
use std::collections::BTreeMap;

#[test]
fn a_die_shows_one_of_its_faces() {
    let mut seen = [false; 6];
    for _ in 0..10_000 {
        let r = roll_die(6);
        assert!((1..=6).contains(&r));
        seen[(r - 1) as usize] = true;
    }
    assert!(seen.iter().all(|s| *s));
    for _ in 0..100 {
        assert_eq!(roll_die(1), 1);
    }
}

#[test]
fn an_exploding_die_stops_at_a_lower_face() {
    for _ in 0..10_000 {
        let mut v = vec![7];
        explode(&mut v, 4);
        assert_eq!(v[0], 7);
        assert!(v.len() >= 2);
        let (last, before) = v[1..].split_last().unwrap();
        assert!(before.iter().all(|x| *x == 4));
        assert!((1..4).contains(last) || v.len() == 2 + EXPLOSION_LIMIT);
    }
}

#[test]
fn an_exploding_die_of_one_side_comes_to_rest() {
    let mut v = Vec::new();
    explode(&mut v, 1);
    assert_eq!(v.len(), 1 + EXPLOSION_LIMIT);
    assert!(v.iter().all(|x| *x == 1));
    let bag = parse("3d1!".to_owned()).expect("should parse");
    assert!(bag.is_rollable());
    assert_eq!(bag.roll().total(), 3 * (1 + EXPLOSION_LIMIT as i64));
}

#[test]
fn reroll_takes_the_first_that_qualify() {
    let clause = ReRoll::IfAbove(ReRollType { count: 2, ex_threshold: 3 });
    for _ in 0..1000 {
        let mut v = vec![9, 2, 9, 9, 1, 9];
        reroll_values(&mut v, &clause, 3);
        // The first two nines are rolled again, on a die of three sides.
        assert!((1..=3).contains(&v[0]));
        assert_eq!(v[1], 2);
        assert!((1..=3).contains(&v[2]));
        assert_eq!(&v[3..], &[9, 1, 9]);
    }
    let clause = ReRoll::IfBelow(ReRollType { count: 1, ex_threshold: 5 });
    for _ in 0..1000 {
        let mut v = vec![5, 6, 0, 0];
        reroll_values(&mut v, &clause, 2);
        assert_eq!(&v[..2], &[5, 6]);
        assert!((1..=2).contains(&v[2]));
        assert_eq!(v[3], 0);
    }
}

#[test]
fn reroll_of_none_changes_nothing() {
    let mut v = vec![9, 2, 9];
    reroll_values(&mut v, &ReRoll::IfAbove(ReRollType { count: 0, ex_threshold: 3 }), 6);
    assert_eq!(v, vec![9, 2, 9]);
    reroll_values(&mut v, &ReRoll::Never, 6);
    assert_eq!(v, vec![9, 2, 9]);
}

#[test]
fn a_rerolled_value_is_not_rolled_again() {
    // Every value qualifies and stays qualifying; three are rolled once each.
    let clause = ReRoll::IfAbove(ReRollType { count: 3, ex_threshold: 0 });
    for _ in 0..1000 {
        let mut v = vec![100, 100, 100, 100];
        reroll_values(&mut v, &clause, 6);
        assert!(v[..3].iter().all(|x| (1..=6).contains(x)));
        assert_eq!(v[3], 100);
    }
}

#[test]
fn cut_off_is_applied_to_each_value() {
    let mut v = vec![1, 2, 3, 4, 5, 6];
    cut_off_values(&mut v, &CutOff::Both(MinMax([2, 5])));
    assert_eq!(v, vec![2, 2, 3, 4, 5, 5]);
    let mut v = vec![1, 2, 3, 4, 5, 6];
    cut_off_values(&mut v, &CutOff::Minimum(4));
    assert_eq!(v, vec![4, 4, 4, 4, 5, 6]);
    let mut v = vec![1, 2, 3, 4, 5, 6];
    cut_off_values(&mut v, &CutOff::Maximum(3));
    assert_eq!(v, vec![1, 2, 3, 3, 3, 3]);
    let mut v = vec![6, 1];
    cut_off_values(&mut v, &CutOff::Non);
    assert_eq!(v, vec![6, 1]);
}

#[test]
fn kept_values_of_sorted_rolls() {
    let sorted = vec![1, 2, 2, 5, 6];
    assert_eq!(keep_from_sorted(sorted.clone(), &Drop::Non), vec![1, 2, 2, 5, 6]);
    assert_eq!(keep_from_sorted(sorted.clone(), &Drop::Highest(2)), vec![1, 2, 2]);
    assert_eq!(keep_from_sorted(sorted.clone(), &Drop::Lowest(2)), vec![6, 5, 2]);
    assert_eq!(keep_from_sorted(sorted.clone(), &Drop::Highest(9)), Vec::<i64>::new());
    assert_eq!(keep_from_sorted(sorted.clone(), &Drop::Lowest(5)), Vec::<i64>::new());
    assert_eq!(
        keep_from_sorted(sorted.clone(), &Drop::Custom(vec![1, 2, 3])),
        vec![2, 2, 5]
    );
    assert_eq!(keep_from_sorted(sorted, &Drop::Custom(vec![4, 0])), vec![6, 1]);
}

#[test]
fn drop_sorts_the_rolls_first() {
    let rolled = vec![5, 1, 6, 2, 2];
    assert_eq!(apply_drop(rolled.clone(), &Drop::Non), vec![5, 1, 6, 2, 2]);
    assert_eq!(apply_drop(rolled.clone(), &Drop::Highest(2)), vec![1, 2, 2]);
    assert_eq!(apply_drop(rolled.clone(), &Drop::Lowest(2)), vec![6, 5, 2]);
    assert_eq!(apply_drop(rolled, &Drop::Custom(vec![1, 2, 3])), vec![2, 2, 5]);
}

#[test]
fn report_of_a_group_sums_what_was_kept() {
    let mut d = Dice::with_size_and_count(6, 3);
    let r = DiceResult::new(&d, vec![1, 5, 6]);
    assert_eq!(r.total(), 12);
    assert_eq!(r.results, vec![1, 5, 6]);
    assert_eq!(r.dice, d);
    d.to_minus_dice();
    let r = DiceResult::new(&d, vec![1, 5, 6]);
    assert_eq!(r.total(), -12);
    assert_eq!(DiceResult::new(&d, vec![]).total(), 0);
}

#[test]
fn report_of_a_roll_is_built_up() {
    let mut r = RollResults::new_empty();
    assert_eq!(r.total(), 0);
    assert_eq!(r.get_bonus(), &BonusResult::new());
    assert!(r.get_dice_groups().is_empty());
    let d = Dice::with_size_and_count(6, 2);
    r.add_dice_result(DiceResult::new(&d, vec![3, 4]));
    assert_eq!(r.total(), 7);
    r.add_to_bonus(&Bonus::minus(2));
    assert_eq!(r.total(), 5);
    assert_eq!(r.get_bonus().total(), -2);
    assert_eq!(r.get_bonus().boni, vec![2]);
    assert_eq!(r.get_dice_groups().len(), 1);
    assert_eq!(r.get_dice_groups()[0].total(), 7);
}

#[test]
fn a_second_bonus_counts_the_first_again() {
    // What the bonuses came to so far goes into the step of the next one.
    let mut r = RollResults::new_empty();
    r.add_to_bonus(&Bonus::plus(2));
    assert_eq!((r.get_bonus().total(), r.total()), (2, 2));
    r.add_to_bonus(&Bonus::plus(3));
    assert_eq!((r.get_bonus().total(), r.total()), (7, 7));
    r.add_to_bonus(&Bonus::minus(1));
    assert_eq!((r.get_bonus().total(), r.total()), (13, 13));

    let bag = parse("2 + 3".to_owned()).expect("should parse");
    assert_eq!(bag.range, MinMax([5, 5]));
    assert_eq!(bag.roll().total(), 7);
}

#[test]
fn one_bonus_is_its_own_total() {
    let plus_five: DiceGroup = Bonus::plus(5).into();
    let bag: DiceBag = DiceBag::from_dice(vec![plus_five]);
    assert!(bag.roll().total() == 5);
    let minus_five: DiceGroup = Bonus::minus(5).into();
    let bag: DiceBag = DiceBag::from_dice(vec![minus_five]);
    let res = bag.roll();
    assert!(res.total() == -5);
    assert!(res.get_bonus().total() == -5);
}

#[test]
fn totals_stay_within_the_range() {
    for text in [
        "4d6",
        "8d6mn2",
        "4d6dl1",
        "4d6dh1",
        "12d20dl4dh3",
        "15d20dl4dh3rr3ab4mn2mx18",
        "7d23 + 11",
        "7d23 - 11",
        "5 - 2d6",
        "2d6rr2be3",
        "3d6dl1dh1!",
    ] {
        let bag = parse(text.to_owned()).expect("should parse");
        assert!(bag.is_rollable());
        let [min, max] = bag.get_range();
        for _ in 0..20_000 {
            let total = bag.roll().total();
            assert!((min <= total) && (total <= max), "{}: {}", text, total);
        }
    }
}

#[test]
fn both_ends_of_the_range_come_up() {
    let four_d_six: DiceGroup = Dice::with_size_and_count(6, 4).into();
    let bag: DiceBag = DiceBag::from_dice(vec![four_d_six]);
    let distribution = bag.make_count_distribution(500_000);
    for i in 4..25 {
        assert!(*distribution.get(&i).unwrap() > 0);
    }
    assert!(distribution.get(&3).is_none());
    assert!(distribution.get(&25).is_none());
    assert_eq!(distribution.values().sum::<usize>(), 500_000);
}

#[test]
fn totals_outside_the_range_are_counted_too() {
    // The range of subtracted dice is narrower than their totals.
    let bag = parse("1d2 - 1d2".to_owned()).expect("should parse");
    assert_eq!(bag.range, MinMax([0, 0]));
    let distribution = bag.make_count_distribution(10_000);
    let keys: Vec<i64> = distribution.keys().copied().collect();
    assert_eq!(keys, vec![-1, 0, 1]);
    assert_eq!(distribution.values().sum::<usize>(), 10_000);
}

#[test]
fn distribution_of_no_rolls_is_the_range_at_zero() {
    let bag = parse("2d4".to_owned()).expect("should parse");
    let distribution = bag.make_count_distribution(0);
    assert_eq!(distribution, bag.get_range_as_btreemap());
    assert_eq!(distribution.len(), 7);
}

#[test]
fn record_counts_one_more() {
    let mut counts: BTreeMap<i64, usize> = BTreeMap::new();
    counts.insert(3, 0);
    record(&mut counts, 3);
    record(&mut counts, 3);
    record(&mut counts, -8);
    assert_eq!(counts.get(&3), Some(&2));
    assert_eq!(counts.get(&-8), Some(&1));
    assert_eq!(counts.len(), 2);
}

#[test]
fn report_holds_every_group_of_dice() {
    let minus_five: DiceGroup = Bonus::minus(5).into();
    let two_d_six: DiceGroup = Dice::with_size_and_count(6, 2).into();
    let one_d_twenty: DiceGroup = Dice::with_size_and_count(20, 1).into();
    let bag: DiceBag = DiceBag::from_dice(vec![minus_five, two_d_six, one_d_twenty]);
    for _ in 0..10_000 {
        let res = bag.roll();
        let groups = res.get_dice_groups();
        assert_eq!(groups.len(), 2);
        let gr_1_total = groups[0].total();
        let gr_2_total = groups[1].total();
        assert!((gr_1_total >= 2) && (gr_1_total < 13));
        assert!((gr_2_total >= 1) && (gr_2_total < 21));
        assert_eq!(groups[0].results.len(), 2);
        assert_eq!(groups[0].results.iter().sum::<i64>(), gr_1_total);
        assert_eq!(res.get_bonus().total(), -5);
        assert_eq!(res.total(), gr_1_total + gr_2_total - 5);
    }
}

#[test]
fn kept_values_follow_the_clauses() {
    let bag = parse("9d12dl2dh3mn3mx10".to_owned()).expect("should parse");
    for _ in 0..5_000 {
        let res = bag.roll();
        let kept = &res.get_dice_groups()[0].results;
        assert_eq!(kept.len(), 4);
        assert!(kept.iter().all(|x| (3..=10).contains(x)));
        assert!(kept.windows(2).all(|w| w[0] <= w[1]));
    }
    let bag = parse("9d12dl2".to_owned()).expect("should parse");
    for _ in 0..5_000 {
        let res = bag.roll();
        let kept = &res.get_dice_groups()[0].results;
        assert_eq!(kept.len(), 7);
        assert!(kept.windows(2).all(|w| w[0] >= w[1]));
    }
}

#[test]
fn subtracted_dice_give_a_negative_subtotal() {
    let mut minus_four_d_eight: Dice = Dice::with_size_and_count(8, 4);
    minus_four_d_eight.to_minus_dice();
    let bag = DiceBag::from_dice(vec![minus_four_d_eight.into()]);
    for _ in 0..10_000 {
        let total = bag.roll().total();
        assert!((-32..=-4).contains(&total));
    }
}

#[test]
fn bags_that_cannot_be_rolled_are_told_apart() {
    assert!(!parse("1d0".to_owned()).expect("should parse").is_rollable());
    assert!(!parse("1d9223372036854775807".to_owned())
        .expect("should parse")
        .is_rollable());
    let mut d = Dice::with_size_and_count(6, 2);
    d.add_drop(Drop::Custom(vec![2]));
    assert!(!DiceBag::from_dice(vec![d.into()]).is_rollable());
    let mut d = Dice::with_size_and_count(6, 2);
    d.add_drop(Drop::Custom(vec![1]));
    assert!(DiceBag::from_dice(vec![d.into()]).is_rollable());
    // Sixty-four bonuses double what they come to sixty-three times.
    let ones = vec!["1"; 64].join("+");
    assert!(!parse(ones).expect("should parse").is_rollable());
    let ones = vec!["1"; 63].join("+");
    let bag = parse(ones).expect("should parse");
    assert!(bag.is_rollable());
    assert_eq!(bag.roll().total(), i64::MAX);
}

#[test]
fn bounds_of_a_group() {
    let d = Dice::with_size_and_count(6, 4);
    assert_eq!(d.total_bounds(), Some((4, 24)));
    let mut d = Dice::with_size_and_count(6, 4);
    d.to_minus_dice();
    d.with_min_and_max_roll(2, 5).unwrap();
    d.with_drop_lowest(1).unwrap();
    assert_eq!(d.total_bounds(), Some((-15, -6)));
    let mut d = Dice::with_size_and_count(6, 4);
    d.explosive = true;
    assert_eq!(d.total_bounds(), Some((4, 24 * (1 + EXPLOSION_LIMIT as i64))));
    assert_eq!(Dice::with_size_and_count(0, 4).total_bounds(), None);
}

#[test]
fn rolled_values_are_as_many_as_the_dice() {
    let d = Dice::with_size_and_count(6, 40);
    for _ in 0..1000 {
        let v = d.roll_all();
        assert_eq!(v.len(), 40);
        assert!(v.iter().all(|x| (1..=6).contains(x)));
    }
    let mut d = Dice::with_size_and_count(2, 40);
    d.explosive = true;
    let mut longer = false;
    for _ in 0..100 {
        let v = d.roll_all();
        assert!(v.len() >= 40);
        longer = longer || v.len() > 40;
    }
    assert!(longer);
}

#[test]
fn mean_of_a_reroll_above() {
    let mut one_d_six: Dice = Dice::with_size_and_count(6, 1);
    one_d_six.add_reroll_if_above(5, 1);
    let bag: DiceBag = DiceBag::from_dice(vec![one_d_six.into()]);
    let mean = bag
        .make_count_distribution(500_000)
        .into_iter()
        .fold(0, |acc, (v, n)| acc + v * n as i64) as f64
        / 500_000.0;
    // The mean of a 1d6rr1ab5 should be about 3.08. (The mean of 1d6 is 3.5).
    assert!((mean > 3.0) && (mean < 3.15));
}

#[test]
fn mean_of_a_drop_lowest() {
    let mut four_d_six: Dice = Dice::with_size_and_count(6, 4);
    four_d_six.with_drop_lowest(1).unwrap();
    let bag: DiceBag = DiceBag::from_dice(vec![four_d_six.into()]);
    let mean = bag
        .make_count_distribution(500_000)
        .into_iter()
        .fold(0, |acc, (v, n)| acc + v * n as i64) as f64
        / 500_000.0;
    // The mean of a 4d6dl1 will be ~12.245.
    assert!((mean > 12.2) && (mean < 12.3));
}

#[test]
fn faces_of_1d10_come_up_equally_often() {
    let one_d_ten = parse("1d10".to_owned()).expect("should parse");
    let distribution = one_d_ten.make_count_distribution(2_000_000);
    assert_eq!(distribution.len(), 10);
    for (face, count) in distribution {
        assert!((1..=10).contains(&face));
        let share = count as f64 / 2_000_000.0 * 100.0;
        assert!((share > 9.8) && (share < 10.2));
    }
}
