use hashlife::rule::{Rule, Rule3x3, RuleError};

#[test]
fn parse_rule_3x3() {
    let rule = Rule3x3::parse_rule("B3/S23").unwrap();
    assert_eq!(rule.rule_table[0b_000_000_000], false);
    assert_eq!(rule.rule_table[0b_000_010_000], false);
    assert_eq!(rule.rule_table[0b_000_000_110], false);
    assert_eq!(rule.rule_table[0b_000_010_110], true);
    assert_eq!(rule.rule_table[0b_100_000_110], true);
    assert_eq!(rule.rule_table[0b_100_010_110], true);
    assert_eq!(rule.rule_table[0b_100_100_110], false);
    assert_eq!(rule.rule_table[0b_100_110_110], false);
}

#[test]
fn parse_rule() {
    let rule = Rule::parse_rule("B3/S23").unwrap();
    assert_eq!(rule.rule_table[0b_0000_0000_0000_0000], 0b_00_00_00);
    assert_eq!(rule.rule_table[0b_0011_1110_0101_1110], 0b_00_00_00);
    assert_eq!(rule.rule_table[0b_0111_0010_0010_1001], 0b_00_00_11);
    assert_eq!(rule.rule_table[0b_0000_0111_0001_0001], 0b_01_00_00);
    assert_eq!(rule.rule_table[0b_1000_1000_1111_1100], 0b_01_00_01);
    assert_eq!(rule.rule_table[0b_0011_1110_0000_0011], 0b_11_00_00);
}

#[test]
fn life_is_b3_s23() {
    let parsed = Rule::parse_rule("B3/S23").unwrap();
    let built = Rule::life();
    assert!(parsed.rule_table[..] == built.rule_table[..]);
}

#[test]
fn from_str_parses() {
    let parsed: Rule = "B3/S23".parse().unwrap();
    assert!(parsed.rule_table[..] == Rule::life().rule_table[..]);
}

#[test]
fn birth_without_neighbours_is_unsupported() {
    assert!(matches!(Rule::parse_rule("B03/S23"), Err(RuleError::Unsupported)));
    assert!(matches!(Rule::from_bs(vec![0x00, 0x07], vec![]), Err(RuleError::Unsupported)));
    assert!(matches!(Rule3x3::from_bs(vec![0x00], vec![0x01]), Err(RuleError::Unsupported)));
}

#[test]
fn junk_is_a_parse_error() {
    assert!(matches!(Rule::parse_rule("no rule"), Err(RuleError::Parse(_))));
    assert!(matches!(Rule3x3::parse_rule("B3/S23x"), Err(RuleError::Parse(_))));
}

#[test]
fn from_bs_sets_births_and_survivals() {
    let rule = Rule3x3::from_bs(vec![0x07], vec![0x03]).unwrap();
    // birth with the three top neighbours alive, centre dead
    assert_eq!(rule.rule_table[0b_000_000_111], true);
    assert_eq!(rule.rule_table[0b_000_010_111], false);
    // survival with two neighbours at bottom right, centre alive
    assert_eq!(rule.rule_table[0b_000_010_011], true);
    assert_eq!(rule.rule_table[0b_000_000_011], false);
    let set: usize = rule.rule_table.iter().filter(|&&alive| alive).count();
    assert_eq!(set, 2);
}

#[test]
fn isotropic_rule_differs_from_life() {
    let rule = Rule::parse_rule("B3/S23-a4ei6").unwrap();
    assert!(rule.rule_table[..] != Rule::life().rule_table[..]);
}
