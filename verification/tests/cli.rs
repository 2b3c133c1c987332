use bit_set::BitSet;
use neonwhite_seed_finder::cli::{
    choose_command, find_arguments, find_arguments_fit, is_prefix, parse_seed, prepare_find, simulate,
    simulate_arguments, try_best, try_find, try_simulate, Command,
};
use neonwhite_seed_finder::levels::check_level_data;
use neonwhite_seed_finder::error::FinderError;
use neonwhite_seed_finder::levels::LevelData;
use neonwhite_seed_finder::rules::Rule;
use neonwhite_seed_finder::shuffle::get_shuffled_idxs;

fn words(ws: &[&str]) -> Vec<String> {
    ws.iter().map(|w| w.to_string()).collect()
}

fn set(levels: &[usize]) -> BitSet {
    let mut s = BitSet::with_capacity(16);
    for &l in levels {
        s.insert(l);
    }
    s
}

fn data() -> LevelData {
    let names = [
        "Movement", "Pummel", "Gunner", "Cascade", "Elevate", "Bounce", "Purify", "Climb", "Fasttrack", "Glass Port",
        "The Clocktower", "The Third Temple", "Absolution", "Godspeed", "Waterworks", "Glass Port II",
    ];
    let keys = [
        "White", "Rebirth", "Killer Inside", "Only Shallow", "The Old City", "The Burn That Cures", "Covenant",
        "Reckoning", "Benediction", "Apocrypha", "The Third Temple", "Thousand Pound Butterfly", "Hand of God", "Red",
        "Violet", "Yellow",
    ];
    let mut level_sets: Vec<(String, BitSet)> = Vec::new();
    level_sets.push(("White".to_string(), set(&(0..16).collect::<Vec<_>>())));
    for (k, key) in keys.iter().enumerate().skip(1) {
        level_sets.push((key.to_string(), set(&[k - 1, (k + 7) % 16])));
    }
    LevelData {
        all_levels: names.iter().map(|s| s.to_string()).collect(),
        alternate_names: Vec::new(),
        level_sets,
    }
}

#[test]
fn commands() {
    assert_eq!(choose_command(&words(&["prog"])), Command::Interactive);
    assert_eq!(choose_command(&words(&["prog", "h"])), Command::Help);
    assert_eq!(choose_command(&words(&["prog", "help"])), Command::Help);
    assert_eq!(choose_command(&words(&["prog", "w", ":3=clock"])), Command::Find);
    assert_eq!(choose_command(&words(&["prog", "stats.txt"])), Command::Best);
    assert_eq!(choose_command(&words(&["prog", "w", "5"])), Command::Simulate);
    assert_eq!(choose_command(&words(&["prog", "help", "x"])), Command::Simulate);
    assert_eq!(choose_command(&words(&["a:b"])), Command::Interactive);
    assert!(is_prefix(&['f', 'i'], &['f', 'i', 'n', 'd']));
    assert!(!is_prefix(&['f', 'x'], &['f', 'i', 'n', 'd']));
}

#[test]
fn simulate_grouping() {
    let g = simulate_arguments(&words(&["prog", "123"])).unwrap();
    assert!(g.rush_words.is_empty());
    assert_eq!(g.seed_text, "123");
    let g = simulate_arguments(&words(&["prog", "w", "sim", "42"])).unwrap();
    assert_eq!(g.rush_words, words(&["w"]));
    assert_eq!(g.seed_text, "42");
    let g = simulate_arguments(&words(&["prog", "the", "old", "42"])).unwrap();
    assert_eq!(g.rush_words, words(&["the", "old"]));
    assert_eq!(
        simulate_arguments(&words(&["prog", "w", "f", "42"])).unwrap_err(),
        FinderError::WrongSubcommand { expected: "simulate".to_string(), found: "find".to_string() }
    );
}

#[test]
fn seeds() {
    assert_eq!(parse_seed("0"), Ok(0));
    assert_eq!(parse_seed("+7"), Ok(7));
    assert_eq!(parse_seed("2147483647"), Ok(i32::MAX));
    assert_eq!(parse_seed("-5"), Err(FinderError::NegativeSeed));
    assert_eq!(parse_seed("abc"), Err(FinderError::UnparsableSeed { text: "abc".to_string() }));
    assert_eq!(parse_seed("2147483648"), Err(FinderError::UnparsableSeed { text: "2147483648".to_string() }));
}

#[test]
fn simulating_a_seed() {
    let d = data();
    let sim = try_simulate(&words(&["prog", "w", "58685"]), &d).unwrap();
    assert_eq!(sim.rush, 0);
    assert_eq!(sim.seed, 58685);
    let mut buf = Vec::new();
    get_shuffled_idxs(16, 58685, &mut buf);
    assert_eq!(sim.order, buf);
    assert_eq!(sim.levels, buf.iter().map(|&i| i as usize).collect::<Vec<_>>());
    // the levels of a smaller rush, in the order of its positions
    let sim = simulate(&words(&["3"]), "9", &d).unwrap();
    let mut buf = Vec::new();
    get_shuffled_idxs(2, 9, &mut buf);
    let members: Vec<usize> = d.level_sets[sim.rush].1.iter().collect();
    assert_eq!(sim.levels, buf.iter().map(|&i| members[i as usize]).collect::<Vec<_>>());
    assert_eq!(simulate(&words(&["w"]), "-1", &d).unwrap_err(), FinderError::NegativeSeed);
    assert_eq!(
        simulate(&words(&["qqq"]), "-1", &d).unwrap_err(),
        FinderError::UnknownRush { abbreviation: "qqq".to_string() }
    );
}

#[test]
fn find_grouping() {
    let g = find_arguments(&words(&["prog", "w", "f", "5", ":3=clock,ttt,abso"])).unwrap();
    assert_eq!(g.rush_words, words(&["w"]));
    assert_eq!(g.count, 5);
    assert_eq!(g.description, words(&[":3=clock,ttt,abso"]));
    let g = find_arguments(&words(&["prog", "200", ":4>clock,abso,ttt", "&", "-4:>move,godsp,water"])).unwrap();
    assert!(g.rush_words.is_empty());
    assert_eq!(g.count, 200);
    assert_eq!(g.description.len(), 3);
    let g = find_arguments(&words(&["prog", "red", ":1=3"])).unwrap();
    assert_eq!(g.rush_words, words(&["red"]));
    assert_eq!(g.count, 1);
    assert_eq!(
        find_arguments(&words(&["prog", "s", "5", ":3=x"])).unwrap_err(),
        FinderError::WrongSubcommand { expected: "find".to_string(), found: "simulate".to_string() }
    );
}

#[test]
fn preparing_a_search() {
    let d = data();
    let req = try_find(&words(&["prog", "w", "find", "3", "0:2", "=", "clock,ttt"]), &d).unwrap();
    assert_eq!(req.rush, 0);
    assert_eq!(req.count, 3);
    assert_eq!(req.rules.len(), 1);
    match &req.rules[0] {
        Rule::Sequence(0, 2, v) => assert_eq!(v, &vec![10, 11]),
        other => panic!("{other:?}"),
    }
    assert_eq!(
        try_find(&words(&["prog", "w", "0", "0:2=clock"]), &d).unwrap_err(),
        FinderError::CountTooSmall { count: 0 }
    );
    let g = find_arguments(&words(&["prog", "xyz", "0:1=clock"])).unwrap();
    assert_eq!(prepare_find(&g, &d).unwrap_err(), FinderError::UnknownRush { abbreviation: "xyz".to_string() });
}

#[test]
fn best_is_not_implemented() {
    assert_eq!(try_best(&words(&["prog", "stats.txt"])), Err(FinderError::BestNotImplemented));
}

#[test]
fn arguments_that_leave_no_rush() {
    assert!(find_arguments_fit(&words(&["prog", "w", "5", ":1=a"])));
    assert!(find_arguments_fit(&words(&["prog", "5", ":1=a"])));
    // a count right after a program named like a prefix of "find" leaves no room for the rush
    assert!(!find_arguments_fit(&words(&["fi", "5", ":1=a"])));
    assert!(find_arguments_fit(&words(&["fi", "x", ":1=a"])));
    assert!(!find_arguments_fit(&words(&[])));
}

#[test]
fn level_data_consistency() {
    let mut d = data();
    assert!(check_level_data(&d));
    d.alternate_names.push(("Nowhere".to_string(), 16));
    assert!(!check_level_data(&d));
    d.alternate_names.clear();
    d.level_sets.retain(|(name, _)| name != "Violet");
    assert!(!check_level_data(&d));
}
