use libazdice::distribution::{
    Bonus, CutOff, Dice, DiceBag, DiceGroup, DiceOp, Drop, MinMax, ReRoll, ReRollType,
};
use libazdice::parse::{normalize, parse};

fn plain(size: i64, count: usize) -> Dice {
    Dice {
        size,
        count,
        drop: Drop::Non,
        cutoff: CutOff::Non,
        reroll: ReRoll::Never,
        op: DiceOp::Add,
        explosive: false,
    }
}

#[test]
fn capitals_count_as_small_letters() {
    let lower = parse("3d6dl1".to_owned()).expect("should parse");
    let upper = parse("3D6DL1".to_owned()).expect("should parse");
    assert_eq!(lower, upper);
    assert_eq!(normalize("3D6Dl1"), vec!['3', 'd', '6', 'd', 'l', '1']);
}

#[test]
fn blanks_count_as_nothing() {
    let tight = parse("3d6+4".to_owned()).expect("should parse");
    let loose = parse("  3 d 6\t+\n4 ".to_owned()).expect("should parse");
    assert_eq!(tight, loose);
    assert_eq!(normalize(" 3 d\u{00a0}6 "), vec!['3', 'd', '6']);
}

#[test]
fn control_codes_count_as_nothing() {
    let tight = parse("3d6".to_owned()).expect("should parse");
    let noisy = parse("3\u{0001}d\u{007f}6\u{0000}".to_owned()).expect("should parse");
    assert_eq!(tight, noisy);
    assert_eq!(normalize("3\u{0001}d6"), vec!['3', 'd', '6']);
}

#[test]
fn count_may_be_missing() {
    let bag = parse("d8".to_owned()).expect("should parse");
    assert_eq!(bag.dice, vec![DiceGroup::Dice(plain(8, 1))]);
    assert_eq!(bag.range, MinMax([1, 8]));
}

#[test]
fn leading_zeros_are_digits() {
    let bag = parse("007d06 + 005".to_owned()).expect("should parse");
    assert_eq!(
        bag.dice,
        vec![
            DiceGroup::Dice(plain(6, 7)),
            DiceGroup::Bonus(Bonus {
                bonus: 5,
                op: DiceOp::Add
            })
        ]
    );
    assert_eq!(bag.range, MinMax([12, 47]));
}

#[test]
fn plain_dice_range_is_count_to_count_times_size() {
    for (count, size) in [(1usize, 1i64), (1, 6), (4, 6), (0, 6), (345, 4653), (1000, 1000)] {
        let bag = parse(format!("{}d{}", count, size)).expect("should parse");
        assert_eq!(bag.dice, vec![DiceGroup::Dice(plain(size, count))]);
        assert_eq!(bag.range, MinMax([count as i64, count as i64 * size]));
    }
}

#[test]
fn dice_without_sides_have_their_range_put_in_order() {
    let bag = parse("3d0".to_owned()).expect("should parse");
    assert_eq!(bag.range, MinMax([0, 3]));
}

#[test]
fn every_code_is_decoded() {
    let bag = parse("9d12dl2dh3rr4be5mn2mx11!".to_owned()).expect("should parse");
    assert_eq!(
        bag.dice,
        vec![DiceGroup::Dice(Dice {
            size: 12,
            count: 9,
            drop: Drop::Custom(vec![2, 3, 4, 5]),
            cutoff: CutOff::Both(MinMax([2, 11])),
            reroll: ReRoll::IfBelow(ReRollType {
                count: 4,
                ex_threshold: 5,
            }),
            op: DiceOp::Add,
            explosive: true,
        })]
    );
    assert_eq!(bag.range, MinMax([8, 44]));

    let bag = parse("9d12kh7kl6rr4ab5".to_owned()).expect("should parse");
    assert_eq!(
        bag.dice,
        vec![DiceGroup::Dice(Dice {
            size: 12,
            count: 9,
            drop: Drop::Custom(vec![2, 3, 4, 5]),
            cutoff: CutOff::Non,
            reroll: ReRoll::IfAbove(ReRollType {
                count: 4,
                ex_threshold: 5,
            }),
            op: DiceOp::Add,
            explosive: false,
        })]
    );
}

#[test]
fn order_of_modifiers_does_not_matter() {
    let a = parse("9d12dl2dh3rr4be5mn2mx11".to_owned()).expect("should parse");
    let b = parse("9d12mx11be5dh3mn2rr4dl2".to_owned()).expect("should parse");
    assert_eq!(a, b);
}

#[test]
fn drop_and_keep_say_the_same() {
    for n in 2usize..8 {
        for a in 1..n {
            for b in 1..n {
                let drops = parse(format!("{}d10dl{}dh{}", n, a, b));
                let keeps = parse(format!("{}d10kh{}kl{}", n, n - a, n - b));
                assert_eq!(drops, keeps);
                assert_eq!(drops.is_ok(), a + b < n);
            }
        }
    }
}

#[test]
fn drop_of_nothing_has_no_keep_twin() {
    assert!(parse("3d6dl0dh1".to_owned()).is_ok());
    assert!(parse("3d6kh3kl2".to_owned()).is_err());
}

#[test]
fn trailing_mark_sets_explosive() {
    let bag = parse("4d6! + 2d8 - 3d4!".to_owned()).expect("should parse");
    let marks: Vec<bool> = bag
        .dice
        .iter()
        .map(|g| match g {
            DiceGroup::Dice(d) => d.explosive,
            DiceGroup::Bonus(_) => false,
        })
        .collect();
    assert_eq!(marks, vec![true, false, true]);
}

#[test]
fn operators_go_to_the_group_after_them() {
    let bag = parse("1d4 - 2 + 3d6 - 4d8".to_owned()).expect("should parse");
    let ops: Vec<DiceOp> = bag
        .dice
        .iter()
        .map(|g| match g {
            DiceGroup::Dice(d) => d.op,
            DiceGroup::Bonus(b) => b.op,
        })
        .collect();
    assert_eq!(ops, vec![DiceOp::Add, DiceOp::Sub, DiceOp::Add, DiceOp::Sub]);
}

#[test]
fn range_with_cutoff_and_drop() {
    // Eight dice are summed, each from 2 to 18.
    let bag = parse("15d20dl4dh3mn2mx18".to_owned()).expect("should parse");
    assert_eq!(bag.range, MinMax([16, 144]));
    // Two dice are summed.
    let bag = parse("5d20dl3mx10".to_owned()).expect("should parse");
    assert_eq!(bag.range, MinMax([2, 20]));
    let bag = parse("5d20dh3mn10".to_owned()).expect("should parse");
    assert_eq!(bag.range, MinMax([20, 40]));
}

#[test]
fn range_of_subtraction_is_put_in_order() {
    let bag = parse("5d6 - 10d10".to_owned()).expect("should parse");
    assert_eq!(bag.range, MinMax([-70, -5]));
    let bag = parse("7d23 - 11".to_owned()).expect("should parse");
    assert_eq!(bag.range, MinMax([-4, 150]));
    let bag = parse("5 - 2d6".to_owned()).expect("should parse");
    assert_eq!(bag.range, MinMax([-7, 3]));
}

#[test]
fn range_list_stops_before_the_maximum() {
    let minus_five: DiceGroup = Bonus::minus(5).into();
    let two_d_six: DiceGroup = Dice::with_size_and_count(6, 2).into();
    let one_d_twenty: DiceGroup = Dice::with_size_and_count(20, 1).into();
    let bag: DiceBag = DiceBag::from_dice(vec![minus_five, two_d_six, one_d_twenty]);

    let range = bag.get_range();
    assert!((range[0] == -2) && (range[1] == 27));
    let list: Vec<i64> = bag.get_range_as_list();
    let theoretical_range: Vec<i64> = (-2..27).collect();
    assert!(list == theoretical_range);
}

#[test]
fn range_map_holds_both_ends() {
    let bag = parse("2d6".to_owned()).expect("should parse");
    let map = bag.get_range_as_btreemap();
    let keys: Vec<i64> = map.keys().copied().collect();
    assert_eq!(keys, (2..=12).collect::<Vec<i64>>());
    assert!(map.values().all(|c| *c == 0));
}

#[test]
fn try_from_dice_refuses_a_range_that_does_not_fit() {
    let big = DiceGroup::dice(i64::MAX, 2);
    assert!(DiceBag::try_from_dice(vec![big]).is_none());
    let fine = DiceGroup::dice(i64::MAX, 1);
    let bag = DiceBag::try_from_dice(vec![fine]).expect("fits");
    assert_eq!(bag.range, MinMax([1, i64::MAX]));
}

#[test]
fn calculate_range_restores_the_range() {
    let mut bag = parse("4d6".to_owned()).expect("should parse");
    bag.dice.push(DiceGroup::bonus(3));
    bag.calculate_range();
    assert_eq!(bag.range, MinMax([7, 27]));
}

#[test]
fn own_minmax_of_a_group() {
    assert_eq!(DiceGroup::bonus(7).calculate_minmax(), MinMax([7, 7]));
    assert_eq!(DiceGroup::dice(6, 4).calculate_minmax(), MinMax([4, 24]));
    let mut d = Dice::with_size_and_count(6, 4);
    d.with_drop_lowest(1).unwrap();
    assert_eq!(DiceGroup::Dice(d).calculate_minmax(), MinMax([3, 18]));
    let mut d = Dice::with_size_and_count(6, 4);
    d.with_drop_lowest(4).unwrap();
    assert_eq!(DiceGroup::Dice(d).calculate_minmax(), MinMax([0, 0]));
    assert_eq!(DiceGroup::dice(-2, 3).calculate_minmax(), MinMax([-6, 3]));
}
