use bit_set::BitSet;
use neonwhite_seed_finder::error::FinderError;
use neonwhite_seed_finder::gui::{update_status, GuiState, StartFind, Status, Tab};
use neonwhite_seed_finder::levels::LevelData;
use neonwhite_seed_finder::rules::Rule;
use neonwhite_seed_finder::shuffle::get_shuffled_idxs;
use neonwhite_seed_finder::text::parse_usize;

fn set(levels: &[usize]) -> BitSet {
    let mut s = BitSet::with_capacity(16);
    for &l in levels {
        s.insert(l);
    }
    s
}

fn data() -> LevelData {
    let names = [
        "Movement", "Pummel", "Gunner", "Cascade", "Elevate", "Bounce", "Purify", "Climb", "Fasttrack", "Glass Port",
        "The Clocktower", "The Third Temple", "Absolution", "Godspeed", "Waterworks", "Glass Port II",
    ];
    let keys = [
        "White", "Rebirth", "Killer Inside", "Only Shallow", "The Old City", "The Burn That Cures", "Covenant",
        "Reckoning", "Benediction", "Apocrypha", "The Third Temple", "Thousand Pound Butterfly", "Hand of God", "Red",
        "Violet", "Yellow",
    ];
    let mut level_sets: Vec<(String, BitSet)> = Vec::new();
    level_sets.push(("White".to_string(), set(&(0..16).collect::<Vec<_>>())));
    for (k, key) in keys.iter().enumerate().skip(1) {
        level_sets.push((key.to_string(), set(&[k - 1, (k + 7) % 16])));
    }
    LevelData {
        all_levels: names.iter().map(|s| s.to_string()).collect(),
        alternate_names: Vec::new(),
        level_sets,
    }
}

#[test]
fn a_new_window() {
    let d = data();
    let g = GuiState::new(&d);
    assert_eq!(g.tab, Tab::Find);
    assert_eq!(g.rush_type, "White");
    assert_eq!(g.level_set, Some(0));
    assert_eq!(g.result_count, "1");
    assert!(g.rule_descriptions.is_empty());
    assert!(!g.find_inputs_changed);
    assert!(!g.searching);
    assert_eq!(g.sim_seed, "0");
    assert!(matches!(g.status, Status::Ready));
}

#[test]
fn typing_a_rush() {
    let d = data();
    let mut g = GuiState::new(&d);
    g.rush_type = "reb".to_string();
    assert_eq!(g.parse_rush_abbr(&d), Ok(()));
    assert_eq!(g.rush_type, "Rebirth");
    assert_eq!(g.level_set, Some(1));
    assert!(g.find_inputs_changed);
    g.rush_type = "qqq".to_string();
    assert_eq!(g.parse_rush_abbr(&d), Err(FinderError::UnknownRush { abbreviation: "qqq".to_string() }));
    assert_eq!(g.rush_type, "qqq");
    assert_eq!(g.level_set, Some(1));
}

#[test]
fn typing_a_count() {
    let d = data();
    let mut g = GuiState::new(&d);
    g.result_count = "  ".to_string();
    assert_eq!(g.parse_result_count(), Ok(1));
    g.result_count = " +25 ".to_string();
    assert_eq!(g.parse_result_count(), Ok(25));
    g.result_count = "0".to_string();
    assert_eq!(g.parse_result_count(), Err(FinderError::CountTooSmall { count: 0 }));
    g.result_count = " -3".to_string();
    assert_eq!(g.parse_result_count(), Err(FinderError::UnparsableCount { text: "-3".to_string() }));
    assert!(g.find_inputs_changed);
    assert_eq!(parse_usize(&['4', '2']), Some(42));
    assert_eq!(parse_usize(&['+']), None);
    let too_big: Vec<char> = "99999999999999999999999".chars().collect();
    assert_eq!(parse_usize(&too_big), None);
    let max: Vec<char> = usize::MAX.to_string().chars().collect();
    assert_eq!(parse_usize(&max), Some(usize::MAX));
}

#[test]
fn simulating_adds_orders() {
    let d = data();
    let mut g = GuiState::new(&d);
    g.sim_seed = "12".to_string();
    g.find_results = "1,2".to_string();
    assert_eq!(g.run_simulate(&d), Ok(()));
    let mut buf = Vec::new();
    get_shuffled_idxs(16, 12, &mut buf);
    let once: Vec<usize> = buf.iter().map(|&i| i as usize).collect();
    assert_eq!(g.sim_results, once);
    assert!(g.find_results.is_empty());
    assert_eq!(g.run_simulate(&d), Ok(()));
    assert_eq!(g.sim_results.len(), 32);
    g.sim_seed = "-1".to_string();
    assert_eq!(g.run_simulate(&d), Err(FinderError::NegativeSeed));
    assert_eq!(g.sim_results.len(), 32);
}

#[test]
fn editing_rules() {
    let d = data();
    let mut g = GuiState::new(&d);
    g.add_subset_rule();
    g.add_sequence_rule();
    assert_eq!(g.rule_descriptions, vec!["0:3 > ttt".to_string(), "0:1 = ttt".to_string()]);
    assert!(g.find_inputs_changed);
    g.edit_rule(0, &d);
    assert!(matches!(g.status, Status::Ready));
    g.rule_descriptions[1] = "0:1 = nowhere".to_string();
    g.edit_rule(1, &d);
    assert!(matches!(&g.status, Status::Warning(FinderError::UnknownLevel { name }) if name == "nowhere"));
    g.level_set = None;
    g.edit_rule(0, &d);
    assert!(matches!(g.status, Status::RuleNotChecked));
    update_status(&mut g.status, Ok::<(), FinderError>(()));
    assert!(matches!(g.status, Status::Ready));
}

#[test]
fn deleting_rules() {
    let d = data();
    let mut g = GuiState::new(&d);
    g.rule_descriptions = ["a", "b", "c", "d", "e"].iter().map(|s| s.to_string()).collect();
    g.remove_rules(&[]);
    assert_eq!(g.rule_descriptions.len(), 5);
    assert!(!g.find_inputs_changed);
    g.remove_rules(&[1, 3]);
    assert_eq!(g.rule_descriptions, vec!["a".to_string(), "c".to_string(), "e".to_string()]);
    assert!(g.find_inputs_changed);
    // the walk only moves on at a match
    g.remove_rules(&[2, 0]);
    assert_eq!(g.rule_descriptions, vec!["a".to_string(), "c".to_string()]);
}

#[test]
fn asking_for_a_search() {
    let d = data();
    let mut g = GuiState::new(&d);
    assert!(matches!(g.start_find(&d), Ok(StartFind::Unchanged)));
    assert!(matches!(g.status, Status::InputsUnchanged));
    g.rule_descriptions.push("0:3 > ttt, clock".to_string());
    g.find_inputs_changed = true;
    g.searching = true;
    assert!(matches!(g.start_find(&d), Ok(StartFind::Busy)));
    assert!(matches!(g.status, Status::SearchInProgress));
    g.searching = false;
    g.result_count = "7".to_string();
    match g.start_find(&d) {
        Ok(StartFind::Search { rush: 0, count: 7, rules }) => {
            assert_eq!(rules.len(), 1);
            match &rules[0] {
                Rule::Subset(0, 3, s) => assert_eq!(s.iter().collect::<Vec<_>>(), vec![10, 11]),
                other => panic!("{other:?}"),
            }
        },
        other => panic!("{other:?}"),
    }
    assert!(g.find_inputs_changed);
    g.rule_descriptions.push("3:4 = ttt".to_string());
    assert_eq!(
        g.start_find(&d).unwrap_err(),
        FinderError::CodomainOverlap { first: 0, second: 1, index: 11, level: 11 }
    );
    g.result_count = "x".to_string();
    assert_eq!(g.start_find(&d).unwrap_err(), FinderError::UnparsableCount { text: "x".to_string() });
}
