use bit_set::BitSet;
use neonwhite_seed_finder::error::FinderError;
use neonwhite_seed_finder::frontend::{check_rules, guess_rule_once, guess_rules_from_description};
use neonwhite_seed_finder::levels::{guess_rush_from_abbr, lookup_name, rush_key_name, LevelData};
use neonwhite_seed_finder::rules::Rule;

const LEVELS: [&str; 16] = [
    "Movement", "Pummel", "Gunner", "Cascade", "Elevate", "Bounce", "Purify", "Climb", "Fasttrack", "Glass Port",
    "The Clocktower", "The Third Temple", "Absolution", "Godspeed", "Waterworks", "Glass Port II",
];

fn set(levels: &[usize]) -> BitSet {
    let mut s = BitSet::with_capacity(16);
    for &l in levels {
        s.insert(l);
    }
    s
}

fn data() -> LevelData {
    let all: Vec<usize> = (0..16).collect();
    let rushes: Vec<(&str, Vec<usize>)> = vec![
        ("White", all.clone()),
        ("Mikey", all.clone()),
        ("Rebirth", vec![0, 1, 2, 3, 4]),
        ("Killer Inside", vec![5, 6, 7, 8]),
        ("Only Shallow", vec![9]),
        ("The Old City", vec![10]),
        ("The Burn That Cures", vec![11]),
        ("Covenant", vec![12]),
        ("Reckoning", vec![13]),
        ("Benediction", vec![14]),
        ("Apocrypha", vec![1, 2]),
        ("The Third Temple", vec![11, 12]),
        ("Thousand Pound Butterfly", vec![3, 4]),
        ("Hand of God", vec![5, 6]),
        ("Red", vec![7]),
        ("Violet", vec![8]),
        ("Yellow", vec![9, 10]),
        ("Rainbow", vec![7, 8, 9]),
        ("Boss", vec![10, 11, 12]),
    ];
    LevelData {
        all_levels: LEVELS.iter().map(|s| s.to_string()).collect(),
        alternate_names: vec![("Bell".to_string(), 10), ("Bells".to_string(), 11), ("Boss Room".to_string(), 12)],
        level_sets: rushes.into_iter().map(|(n, l)| (n.to_string(), set(&l))).collect(),
    }
}

fn white(d: &LevelData) -> &BitSet {
    &d.level_sets[0].1
}

fn words(ws: &[&str]) -> Vec<String> {
    ws.iter().map(|w| w.to_string()).collect()
}

fn members(s: &BitSet) -> Vec<usize> {
    s.iter().collect()
}

#[test]
fn lookup_by_name_and_position() {
    let d = data();
    assert_eq!(lookup_name("clock", white(&d), &d), Ok(10));
    assert_eq!(lookup_name("ttt", white(&d), &d), Ok(11));
    assert_eq!(lookup_name("ABSO", white(&d), &d), Ok(12));
    // a position within the rush, not an index into the level list
    assert_eq!(lookup_name("abso", &d.level_sets[11].1, &d), Ok(1));
    assert_eq!(lookup_name("g", &d.level_sets[2].1, &d), Ok(2));
    // digits are spelled as numerals
    assert_eq!(lookup_name("glass port 2", white(&d), &d), Ok(15));
}

#[test]
fn lookup_failures() {
    let d = data();
    assert_eq!(
        lookup_name("glass", white(&d), &d),
        Err(FinderError::AmbiguousLevel { name: "glass".to_string(), first: 9, second: 15 })
    );
    assert_eq!(lookup_name("zzz", white(&d), &d), Err(FinderError::UnknownLevel { name: "zzz".to_string() }));
    assert_eq!(
        lookup_name("bel", white(&d), &d),
        Err(FinderError::AmbiguousAlternate { name: "bel".to_string(), first: 10, second: 11 })
    );
    assert_eq!(lookup_name("boss r", white(&d), &d), Ok(12));
    // an alternate name only counts for a level of the rush
    assert_eq!(lookup_name("bell", &d.level_sets[5].1, &d), Ok(0));
    assert_eq!(lookup_name("boss r", &d.level_sets[5].1, &d), Err(FinderError::UnknownLevel { name: "boss r".to_string() }));
}

#[test]
fn rush_by_abbreviation() {
    let d = data();
    assert_eq!(guess_rush_from_abbr(&words(&["w"]), &d), Ok(0));
    assert_eq!(guess_rush_from_abbr(&words(&[]), &d), Ok(0));
    assert_eq!(guess_rush_from_abbr(&words(&["  "]), &d), Ok(0));
    assert_eq!(guess_rush_from_abbr(&words(&["TTT"]), &d), Ok(11));
    assert_eq!(guess_rush_from_abbr(&words(&["the", "third"]), &d), Ok(11));
    assert_eq!(guess_rush_from_abbr(&words(&["0"]), &d), Ok(0));
    assert_eq!(guess_rush_from_abbr(&words(&["1"]), &d), Ok(2));
    assert_eq!(guess_rush_from_abbr(&words(&["1", "1"]), &d), Ok(12));
    assert_eq!(guess_rush_from_abbr(&words(&["15"]), &d), Ok(16));
    assert_eq!(guess_rush_from_abbr(&words(&["1000"]), &d), Ok(12));
    assert_eq!(
        guess_rush_from_abbr(&words(&["R"]), &d),
        Err(FinderError::AmbiguousRush { abbreviation: "r".to_string(), first: 2, second: 8 })
    );
    assert_eq!(
        guess_rush_from_abbr(&words(&["xyz"]), &d),
        Err(FinderError::UnknownRush { abbreviation: "xyz".to_string() })
    );
    assert_eq!(
        guess_rush_from_abbr(&words(&["16"]), &d),
        Err(FinderError::UnknownRush { abbreviation: "16".to_string() })
    );
    for i in 0..16 {
        let k = guess_rush_from_abbr(&[i.to_string()], &d).unwrap();
        assert_eq!(d.level_sets[k].0, rush_key_name(i));
    }
}

#[test]
fn sequence_and_subset_rules() {
    let d = data();
    match guess_rule_once(":3=clock,ttt,abso", white(&d), &d) {
        Ok(Rule::Sequence(0, 3, v)) => assert_eq!(v, vec![10, 11, 12]),
        other => panic!("{other:?}"),
    }
    match guess_rule_once("-3:>godsp,water,move", white(&d), &d) {
        Ok(Rule::Subset(13, 16, s)) => assert_eq!(members(&s), vec![0, 13, 14]),
        other => panic!("{other:?}"),
    }
    match guess_rule_once(" 0 : 2 > 1, -1 ", white(&d), &d) {
        Ok(Rule::Subset(0, 2, s)) => assert_eq!(members(&s), vec![1, 15]),
        other => panic!("{other:?}"),
    }
    // a sequence's range shrinks at an end left open
    match guess_rule_once(":5=clock", white(&d), &d) {
        Ok(Rule::Sequence(4, 5, v)) => assert_eq!(v, vec![10]),
        other => panic!("{other:?}"),
    }
    match guess_rule_once("3:=clock", white(&d), &d) {
        Ok(Rule::Sequence(3, 4, v)) => assert_eq!(v, vec![10]),
        other => panic!("{other:?}"),
    }
    // "=" is looked for before ">"
    match guess_rule_once("0:2>x=clock,ttt", white(&d), &d) {
        Err(FinderError::UnparsableIndex { text }) => assert_eq!(text, "2>x"),
        other => panic!("{other:?}"),
    }
}

#[test]
fn rule_failures() {
    let d = data();
    let w = white(&d);
    assert_eq!(
        guess_rule_once("clock", w, &d).unwrap_err(),
        FinderError::MissingColon { description: "clock".to_string() }
    );
    assert_eq!(
        guess_rule_once("0:3", w, &d).unwrap_err(),
        FinderError::MissingRelation { description: "0:3".to_string() }
    );
    assert_eq!(guess_rule_once("0:3=99", w, &d).unwrap_err(), FinderError::IndexOutOfRange { value: 99 });
    assert_eq!(guess_rule_once("0:3=-17", w, &d).unwrap_err(), FinderError::IndexOutOfRange { value: -17 });
    assert_eq!(guess_rule_once("0:17=clock", w, &d).unwrap_err(), FinderError::IndexOutOfRange { value: 17 });
    assert_eq!(
        guess_rule_once("0:16=clock", w, &d).unwrap_err(),
        FinderError::RangeTooLarge { start: "0".to_string(), end: "16".to_string() }
    );
    assert_eq!(
        guess_rule_once("x:3=ttt", w, &d).unwrap_err(),
        FinderError::UnparsableIndex { text: "x".to_string() }
    );
    assert_eq!(
        guess_rule_once("0:1>clock,abso", w, &d).unwrap_err(),
        FinderError::RangeTooSmall { start: "0".to_string(), end: "1".to_string() }
    );
    assert_eq!(
        guess_rule_once("3:3>clock", w, &d).unwrap_err(),
        FinderError::RangeTooSmall { start: "3".to_string(), end: "3".to_string() }
    );
    assert_eq!(
        guess_rule_once("0:5=clock", w, &d).unwrap_err(),
        FinderError::RangeTooLarge { start: "0".to_string(), end: "5".to_string() }
    );
    assert_eq!(
        guess_rule_once("0:3=clock,zzz", w, &d).unwrap_err(),
        FinderError::UnknownLevel { name: "zzz".to_string() }
    );
    // the first failing level is reported
    assert_eq!(guess_rule_once("0:3=99,zzz", w, &d).unwrap_err(), FinderError::IndexOutOfRange { value: 99 });
}

#[test]
fn overlapping_rules() {
    let d = data();
    let w = white(&d);
    let rules = vec![
        guess_rule_once("0:3=clock,ttt,abso", w, &d).unwrap(),
        guess_rule_once("1:2=godsp", w, &d).unwrap(),
    ];
    assert_eq!(check_rules(&rules, w), Err(FinderError::DomainOverlap { first: 0, second: 1, position: 1 }));
    let rules = vec![guess_rule_once("0:1=clock", w, &d).unwrap(), guess_rule_once("4:9>clock", w, &d).unwrap()];
    assert_eq!(check_rules(&rules, w), Err(FinderError::CodomainOverlap { first: 0, second: 1, index: 10, level: 10 }));
    let rush = &d.level_sets[18].1;
    let rules = vec![guess_rule_once("0:1=ttt", rush, &d).unwrap(), guess_rule_once("1:>ttt", rush, &d).unwrap()];
    assert_eq!(check_rules(&rules, rush), Err(FinderError::CodomainOverlap { first: 0, second: 1, index: 1, level: 11 }));
    let rules = vec![guess_rule_once("0:3=clock,ttt,abso", w, &d).unwrap(), guess_rule_once("-3:>godsp", w, &d).unwrap()];
    assert_eq!(check_rules(&rules, w), Ok(()));
    assert_eq!(check_rules(&[], w), Ok(()));
    // a bound may be the rush's length, as in a Python slice, but not beyond it
    assert!(matches!(guess_rule_once("1:3>ttt", rush, &d), Ok(Rule::Subset(1, 3, _))));
    assert_eq!(guess_rule_once("1:4>ttt", rush, &d).unwrap_err(), FinderError::IndexOutOfRange { value: 4 });
    assert_eq!(guess_rule_once("-4:>ttt", rush, &d).unwrap_err(), FinderError::IndexOutOfRange { value: -4 });
}

#[test]
fn rules_from_description_words() {
    let d = data();
    let w = white(&d);
    let rules =
        guess_rules_from_description(&words(&["0:3", "=", "clock,", "ttt,abso", "&", "-3:>godsp,", "water,move"]), w, &d)
            .unwrap();
    assert_eq!(rules.len(), 2);
    match &rules[0] {
        Rule::Sequence(0, 3, v) => assert_eq!(v, &vec![10, 11, 12]),
        other => panic!("{other:?}"),
    }
    match &rules[1] {
        Rule::Subset(13, 16, s) => assert_eq!(members(s), vec![0, 13, 14]),
        other => panic!("{other:?}"),
    }
    assert_eq!(
        guess_rules_from_description(&words(&["0:1=clock", "&", "1:2=clock"]), w, &d).unwrap_err(),
        FinderError::CodomainOverlap { first: 0, second: 1, index: 10, level: 10 }
    );
    assert_eq!(
        guess_rules_from_description(&words(&["0:1=clock", "&", "nothing"]), w, &d).unwrap_err(),
        FinderError::MissingColon { description: " nothing".to_string() }
    );
    assert_eq!(
        guess_rules_from_description(&words(&[]), w, &d).unwrap_err(),
        FinderError::MissingColon { description: "".to_string() }
    );
}

#[test]
fn rule_sizes_and_claims() {
    let d = data();
    let w = white(&d);
    let seq = guess_rule_once("2:5=1,2,3", w, &d).unwrap();
    assert_eq!(seq.len(), 3);
    assert_eq!(seq.iter_domain().collect::<Vec<_>>(), vec![2, 3, 4]);
    assert_eq!(seq.iter_codomain(), vec![1, 2, 3]);
    let sub = guess_rule_once("0:6>3,1,3", w, &d).unwrap();
    assert_eq!(sub.len(), 2);
    assert_eq!(sub.iter_domain().collect::<Vec<_>>(), vec![0, 1, 2, 3, 4, 5]);
    assert_eq!(sub.iter_codomain(), vec![1, 3]);
}

#[test]
fn end_bound_at_the_rush_length() {
    let d = data();
    let mut full = BitSet::with_capacity(96);
    for l in 0..96 {
        full.insert(l);
    }
    match guess_rule_once("90:96>0", &full, &d) {
        Ok(Rule::Subset(90, 96, s)) => assert_eq!(members(&s), vec![0]),
        other => panic!("{other:?}"),
    }
    match guess_rule_once("15:16=clock", white(&d), &d) {
        Ok(Rule::Sequence(15, 16, v)) => assert_eq!(v, vec![10]),
        other => panic!("{other:?}"),
    }
}

#[test]
fn any_prefix_of_each_word() {
    let d = data();
    // "The Third (Te)mple": nothing from "the" and "third", "te" from "temple"
    assert_eq!(guess_rush_from_abbr(&words(&["te"]), &d), Ok(11));
    assert_eq!(lookup_name("te", white(&d), &d), Ok(11));
    assert_eq!(lookup_name("thirdtemple", white(&d), &d), Ok(11));
    assert_eq!(lookup_name("third temple", white(&d), &d), Ok(11));
    assert_eq!(lookup_name("theclock", white(&d), &d), Ok(10));
}
