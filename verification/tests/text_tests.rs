use libazdice::distribution::{Bonus, Dice, DiceBag, DiceGroup, Drop};
use libazdice::error::ParseError;
use libazdice::parse::{has_d_numeric, parse, parse_base_dice};
use libazdice::roll::{DiceResult, RollResults};
use libazdice::text::{
    char_to_op, is_letter, is_numeric, number_of, put_number, put_signed, slice_of, take_run,
    valid_chars, CharClass,
};
use libazdice::distribution::DiceOp;
use libazdice::modifiers::{
    decode_tokens, fill_dice, make_group, settle_cutoff, settle_drop, settle_reroll, split_tokens,
    ModifierGroup,
};
use libazdice::distribution::{CutOff, MinMax, ReRoll, ReRollType};

fn chars(text: &str) -> Vec<char> {
    text.chars().collect()
}

#[test]
fn notation_of_parsed_bags_parses_back() {
    for text in [
        "3d6dl1dh1",
        "15d20dl4dh3rr3ab4mn2mx18!",
        "7d23 + 11",
        "5d6 - 10d10",
        "1d8",
        "5d20dl3",
        "5d20dh3",
        "4d6rr2be3mn2 - 3 + 2d4!",
        "12",
        "0d6",
    ] {
        let bag = parse(text.to_owned()).expect("should parse");
        assert_eq!(bag.notation(), text);
        assert_eq!(parse(bag.notation()), Ok(bag));
    }
}

#[test]
fn notation_is_canonical() {
    let bag = parse("D8".to_owned()).expect("should parse");
    assert_eq!(bag.notation(), "1d8");
    let bag = parse("5d20kh2".to_owned()).expect("should parse");
    assert_eq!(bag.notation(), "5d20dl3");
    let bag = parse("12d20kh8kl9".to_owned()).expect("should parse");
    assert_eq!(bag.notation(), "12d20dl4dh3");
    let bag = parse("007d06+005".to_owned()).expect("should parse");
    assert_eq!(bag.notation(), "7d6 + 5");
    let bag = parse("4d6mx5rr1ab2dl1".to_owned()).expect("should parse");
    assert_eq!(bag.notation(), "4d6dl1rr1ab2mx5");
}

#[test]
fn notation_of_built_bags() {
    let mut first = Dice::with_size_and_count(8, 4);
    first.to_minus_dice();
    let bag = DiceBag::from_dice(vec![first.into(), Bonus::minus(5).into()]);
    assert_eq!(bag.notation(), "-4d8 - 5");
    let bag = DiceBag::from_dice(vec![]);
    assert_eq!(bag.notation(), "");
    let mut d = Dice::with_size_and_count(6, 5);
    d.add_drop(Drop::Custom(vec![]));
    assert_eq!(d.notation(), "5d6");
    d.add_drop(Drop::Custom(vec![1, 3]));
    assert_eq!(d.notation(), "5d6dl1dh1");
    d.add_drop(Drop::Custom(vec![9]));
    assert_eq!(d.notation(), "5d6dl9dh0");
    assert_eq!(Dice::with_size_and_count(-3, 2).notation(), "2d-3");
    let bag = DiceBag::from_dice(vec![DiceGroup::bonus(-7)]);
    assert_eq!(bag.notation(), "-7");
}

#[test]
fn notation_of_a_roll() {
    let mut r = RollResults::new_empty();
    let d = Dice::with_size_and_count(6, 2);
    r.add_dice_result(DiceResult::new(&d, vec![3, 4]));
    let mut e = Dice::with_size_and_count(4, 3);
    e.to_minus_dice();
    e.with_drop_lowest(1).unwrap();
    r.add_dice_result(DiceResult::new(&e, vec![4, 1]));
    r.add_to_bonus(&Bonus::minus(2));
    assert_eq!(
        r.notation(),
        "2d6( 3 + 4 = 7 ) - 3d4dl1( 4 + 1 = -5 ) - 2 (Total = 0 )"
    );
    assert_eq!(RollResults::new_empty().notation(), " (Total = 0 )");
    let mut r = RollResults::new_empty();
    r.add_dice_result(DiceResult::new(&d, vec![-3, -4, 5]));
    r.add_to_bonus(&Bonus::plus(9));
    assert_eq!(r.notation(), "2d6( (-3) - 4 + 5 = -2 ) + 9 (Total = 7 )");
}

#[test]
fn numbers_are_written_in_base_ten() {
    let mut out = String::new();
    put_number(&mut out, 0);
    put_number(&mut out, 7);
    put_number(&mut out, 10);
    put_number(&mut out, 4653);
    put_number(&mut out, u64::MAX);
    assert_eq!(out, "071046531844674407370955161" .to_owned() + "5");
    let mut out = String::from("x");
    put_signed(&mut out, -12);
    put_signed(&mut out, 0);
    put_signed(&mut out, i64::MIN);
    put_signed(&mut out, i64::MAX);
    assert_eq!(out, "x-120-92233720368547758089223372036854775807");
}

#[test]
fn messages_name_what_was_wrong() {
    assert_eq!(
        ParseError::InvalidCharacter('#').message(),
        "Input contained invalid character (#)."
    );
    assert_eq!(
        ParseError::UnknownModifier("xx".to_owned()).message(),
        "(xx) is not a valid modifier."
    );
    assert_eq!(
        ParseError::ExcessiveDrop.message(),
        "Dropping all the dice of a group or more."
    );
    let all = [
        ParseError::InvalidCharacter('q'),
        ParseError::EmptyOrMissingGroup,
        ParseError::NotDiceOrBonus,
        ParseError::MisplacedExplosiveMarker,
        ParseError::ModifierMustStartWithLetter,
        ParseError::BonusCannotHaveModifiers,
        ParseError::MalformedModifierSequence,
        ParseError::UnknownModifier("zz".to_owned()),
        ParseError::NumberTooLarge,
        ParseError::DuplicateDropClause,
        ParseError::ExcessiveDrop,
        ParseError::ImpossibleDropCombination,
        ParseError::IncompleteRerollClause,
        ParseError::DuplicateRerollClause,
        ParseError::ThresholdOutOfRange,
        ParseError::DuplicateCutoffClause,
        ParseError::InvalidCutoffBound,
        ParseError::InvertedCutoffRange,
    ];
    let mut seen: Vec<String> = Vec::new();
    for e in all.iter() {
        let m = e.message();
        assert!(!m.is_empty());
        assert!(!seen.contains(&m));
        seen.push(m);
    }
}

#[test]
fn classes_of_characters() {
    assert!(is_numeric('0') && is_numeric('9') && !is_numeric('a') && !is_numeric('\u{0663}'));
    assert!(is_letter('a') && is_letter('z') && !is_letter('A') && !is_letter('1'));
    for c in "+-dlkxhrbeam!n0123456789".chars() {
        assert!(valid_chars(c));
    }
    for c in "cfgijopqstuvwyzD #*.,".chars() {
        assert!(!valid_chars(c));
    }
    assert_eq!(char_to_op('+'), Some(DiceOp::Add));
    assert_eq!(char_to_op('-'), Some(DiceOp::Sub));
    assert_eq!(char_to_op('d'), None);
    assert!(CharClass::Operand.contains('d') && !CharClass::Operand.contains('-'));
}

#[test]
fn runs_end_at_the_first_stranger() {
    let text = chars("12dl34+x");
    assert_eq!(take_run(&text, 0, CharClass::Digit), 2);
    assert_eq!(take_run(&text, 2, CharClass::Digit), 2);
    assert_eq!(take_run(&text, 2, CharClass::Letter), 4);
    assert_eq!(take_run(&text, 4, CharClass::Digit), 6);
    assert_eq!(take_run(&text, 0, CharClass::Operand), 6);
    assert_eq!(take_run(&text, 7, CharClass::Operand), 8);
    assert_eq!(take_run(&text, 8, CharClass::Operand), 8);
    assert_eq!(take_run(&text, 0, CharClass::Allowed), 8);
    assert_eq!(take_run(&chars("12#"), 0, CharClass::Allowed), 2);
    assert_eq!(slice_of(&text, 2, 4), chars("dl"));
    assert_eq!(slice_of(&text, 3, 3), chars(""));
}

#[test]
fn digits_are_read_in_base_ten() {
    assert_eq!(number_of(&chars(""), 100), Some(0));
    assert_eq!(number_of(&chars("0"), 100), Some(0));
    assert_eq!(number_of(&chars("100"), 100), Some(100));
    assert_eq!(number_of(&chars("101"), 100), None);
    assert_eq!(number_of(&chars("0042"), 100), Some(42));
    assert_eq!(
        number_of(&chars("18446744073709551615"), u64::MAX),
        Some(u64::MAX)
    );
    assert_eq!(number_of(&chars("18446744073709551616"), u64::MAX), None);
    assert_eq!(number_of(&chars("99999999999999999999999"), u64::MAX), None);
}

#[test]
fn d_with_a_digit_is_looked_for() {
    assert!(has_d_numeric(&chars("d6")));
    assert!(has_d_numeric(&chars("12dl1d6")));
    assert!(!has_d_numeric(&chars("12dl1")));
    assert!(!has_d_numeric(&chars("6d")));
    assert!(!has_d_numeric(&chars("d")));
    assert!(!has_d_numeric(&chars("")));
}

#[test]
fn base_of_a_dice_group() {
    assert_eq!(
        parse_base_dice(&chars("12d20dl4")),
        Ok((Dice::with_size_and_count(20, 12), 5))
    );
    assert_eq!(
        parse_base_dice(&chars("d4")),
        Ok((Dice::with_size_and_count(4, 1), 2))
    );
    assert_eq!(parse_base_dice(&chars("12")), Err(ParseError::NotDiceOrBonus));
    assert_eq!(parse_base_dice(&chars("")), Err(ParseError::NotDiceOrBonus));
    assert_eq!(parse_base_dice(&chars("12dl")), Err(ParseError::NotDiceOrBonus));
    assert_eq!(
        parse_base_dice(&chars("12x")),
        Err(ParseError::BonusCannotHaveModifiers)
    );
    assert_eq!(
        parse_base_dice(&chars("12!")),
        Err(ParseError::ModifierMustStartWithLetter)
    );
}

#[test]
fn tokens_are_letters_then_digits() {
    let text = chars("3d6dl12mx5");
    let tokens = split_tokens(&text, 3).expect("tokens");
    let seen: Vec<(String, String)> = tokens
        .iter()
        .map(|t| (t.code.iter().collect(), t.number.iter().collect()))
        .collect();
    assert_eq!(
        seen,
        vec![
            ("dl".to_owned(), "12".to_owned()),
            ("mx".to_owned(), "5".to_owned())
        ]
    );
    assert!(split_tokens(&text, text.len()).expect("none").is_empty());
    assert_eq!(
        decode_tokens(&tokens),
        Ok(vec![
            ModifierGroup::DropLowest(12),
            ModifierGroup::CutOffMaximum(5)
        ])
    );
}

#[test]
fn every_code_has_its_modifier() {
    let n = chars("7");
    assert_eq!(make_group(&n, &chars("dl")), Ok(ModifierGroup::DropLowest(7)));
    assert_eq!(make_group(&n, &chars("kh")), Ok(ModifierGroup::KeepHighest(7)));
    assert_eq!(make_group(&n, &chars("dh")), Ok(ModifierGroup::DropHighest(7)));
    assert_eq!(make_group(&n, &chars("kl")), Ok(ModifierGroup::KeepLowest(7)));
    assert_eq!(make_group(&n, &chars("rr")), Ok(ModifierGroup::ReRollCount(7)));
    assert_eq!(make_group(&n, &chars("ab")), Ok(ModifierGroup::ReRollAbove(7)));
    assert_eq!(make_group(&n, &chars("be")), Ok(ModifierGroup::ReRollBelow(7)));
    assert_eq!(make_group(&n, &chars("mx")), Ok(ModifierGroup::CutOffMaximum(7)));
    assert_eq!(make_group(&n, &chars("mn")), Ok(ModifierGroup::CutOffMinimum(7)));
    assert_eq!(
        make_group(&n, &chars("ld")),
        Err(ParseError::UnknownModifier("ld".to_owned()))
    );
}

#[test]
fn modifiers_settle_into_clauses() {
    let mods = vec![
        ModifierGroup::CutOffMinimum(2),
        ModifierGroup::KeepHighest(8),
        ModifierGroup::ReRollAbove(4),
        ModifierGroup::KeepLowest(9),
        ModifierGroup::ReRollCount(3),
    ];
    assert_eq!(settle_drop(&mods, 12), Ok(Drop::Custom(vec![4, 5, 6, 7, 8])));
    assert_eq!(
        settle_reroll(&mods, 20),
        Ok(ReRoll::IfAbove(ReRollType { count: 3, ex_threshold: 4 }))
    );
    assert_eq!(settle_cutoff(&mods, 20), Ok(CutOff::Minimum(2)));
    let mut die = Dice::with_size_and_count(20, 12);
    die.explosive = true;
    assert_eq!(fill_dice(&mods, &mut die), Ok(()));
    assert_eq!(die.notation(), "12d20dl4dh3rr3ab4mn2!");
    // A die that is refused stays as it was.
    let mut die = Dice::with_size_and_count(3, 12);
    assert_eq!(fill_dice(&mods, &mut die), Err(ParseError::ThresholdOutOfRange));
    assert_eq!(die, Dice::with_size_and_count(3, 12));
    let both = vec![ModifierGroup::CutOffMinimum(2), ModifierGroup::CutOffMaximum(2)];
    assert_eq!(settle_cutoff(&both, 6), Ok(CutOff::Both(MinMax([2, 2]))));
}
