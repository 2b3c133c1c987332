use neonwhite_seed_finder::text::{
    is_abbreviation, is_whitespace, join_with_space, matches_words, parse_i32, remove_whitespace, split_on,
    split_once, split_whitespace, trim,
};

fn chars(s: &str) -> Vec<char> {
    s.chars().collect()
}

fn text(v: &[char]) -> String {
    v.iter().collect()
}

#[test]
fn whitespace_agrees_with_std() {
    for v in 0..0x11_0000u32 {
        if let Some(c) = char::from_u32(v) {
            assert_eq!(is_whitespace(c), c.is_whitespace(), "{v:#x}");
        }
    }
}

#[test]
fn parse_agrees_with_std() {
    let cases = [
        "", "0", "-0", "+0", "+", "-", "12", "-12", "+12", "007", "2147483647", "2147483648", "-2147483648",
        "-2147483649", "99999999999999", "1 2", " 1", "1 ", "1a", "a1", "--1", "+-1", "٣", "1000",
    ];
    for case in cases {
        let expected = i32::from_str_radix(case, 10).ok();
        assert_eq!(parse_i32(&chars(case)), expected, "{case:?}");
    }
}

#[test]
fn trim_agrees_with_std() {
    for case in ["", "   ", " a ", "a", "\t a b \n", "\u{3000}x\u{85}", "a  "] {
        assert_eq!(text(&trim(&chars(case))), case.trim());
    }
}

#[test]
fn split_whitespace_agrees_with_std() {
    for case in ["", "  ", "a b", "  the  third\ttemple ", "x"] {
        let ours: Vec<String> = split_whitespace(&chars(case)).iter().map(|w| text(w)).collect();
        let std: Vec<String> = case.split_whitespace().map(|w| w.to_string()).collect();
        assert_eq!(ours, std);
    }
}

#[test]
fn split_agrees_with_std() {
    for case in ["", ",", "a,b", "a,,b,", " x , y "] {
        let ours: Vec<String> = split_on(&chars(case), ',').iter().map(|w| text(w)).collect();
        let std: Vec<String> = case.split(',').map(|w| w.to_string()).collect();
        assert_eq!(ours, std);
    }
}

#[test]
fn split_once_agrees_with_std() {
    for case in ["", ":", "a:b", "a:b:c", "abc", ":x"] {
        let ours = split_once(&chars(case), ':').map(|(a, b)| (text(&a), text(&b)));
        let std = case.split_once(':').map(|(a, b)| (a.to_string(), b.to_string()));
        assert_eq!(ours, std);
    }
}

#[test]
fn join_and_remove_whitespace() {
    let parts = vec![chars("0:3"), chars("="), chars("clock,"), chars("ttt")];
    assert_eq!(text(&join_with_space(&parts)), "0:3 = clock, ttt");
    assert_eq!(text(&join_with_space(&[])), "");
    assert_eq!(text(&remove_whitespace(&chars(" 1 2\t3 "))), "123");
}

#[test]
fn abbreviations_of_level_names() {
    assert!(is_abbreviation("ttt", "The Third Temple"));
    assert!(is_abbreviation("clock", "The Clocktower"));
    assert!(is_abbreviation("abso", "Absolution"));
    assert!(is_abbreviation("godsp", "Godspeed"));
    assert!(is_abbreviation("tt", "The Third Temple"));
    assert!(is_abbreviation("", "Pop"));
    assert!(is_abbreviation("the clocktower", "The Clocktower"));
    assert!(!is_abbreviation("xyz", "Pop"));
    assert!(!is_abbreviation("pops", "Pop"));
    assert!(!is_abbreviation("Pop", "Pop"));
    assert!(is_abbreviation("te", "The Third Temple"));
    assert!(is_abbreviation("thethirdtemple", "The Third Temple"));
    assert!(is_abbreviation("the third temple", "The Third Temple"));
    assert!(is_abbreviation("tt te", "The Third Temple"));
    assert!(!is_abbreviation("tet", "The Third Temple"));
    assert!(!is_abbreviation("temple the", "The Third Temple"));
    // a name abbreviates itself, and every prefix of an abbreviation is one
    assert!(is_abbreviation("the third temple", "The Third Temple"));
    for k in 0..=14 {
        assert!(is_abbreviation(&"thethirdtemple"[..k], "The Third Temple"), "prefix {k}");
        assert!(is_abbreviation(&"tt te"[..k.min(5)], "The Third Temple"), "prefix {k}");
    }
    // the case of the name does not matter
    assert!(is_abbreviation("te", "THE THIRD TEMPLE"));
    assert!(is_abbreviation("te", "the third temple"));
    assert!(!is_abbreviation("tet", "THE THIRD TEMPLE"));
    assert!(matches_words(&chars("tbtc"), &chars("the burn that cures")));
    assert!(!matches_words(&chars("ttt"), &chars("the burn that cures")));
}
