use area_map::parser::{read_rules, ParseRuleError, Rule};

#[test]
fn valid_isolate_rule() {
    assert_eq!(Ok(Rule::Isolate(1234)), Rule::try_from("isolate=1234"));
}

#[test]
fn invalid_isolate_rules() {
    assert_eq!(
        Err(ParseRuleError::InvalidVnum),
        Rule::try_from("isolate=abcd")
    );
    assert_eq!(
        Err(ParseRuleError::InvalidVnum),
        Rule::try_from("isolate=1234,5678")
    );
    assert_eq!(Err(ParseRuleError::InvalidVnum), Rule::try_from("isolate="));
    assert_eq!(Err(ParseRuleError::InvalidVnum), Rule::try_from("isolate"));
}

#[test]
fn valid_separate_rule() {
    assert_eq!(
        Ok(Rule::Separate(1234, 5678)),
        Rule::try_from("separate=1234,5678")
    );
}

#[test]
fn invalid_separate_rule() {
    assert_eq!(
        Err(ParseRuleError::InvalidVnum),
        Rule::try_from("separate=abcd,5678")
    );
    assert_eq!(
        Err(ParseRuleError::InvalidVnum),
        Rule::try_from("separate=1234,efgh")
    );
    assert_eq!(
        Err(ParseRuleError::InvalidVnum),
        Rule::try_from("separate=1234")
    );
    assert_eq!(
        Err(ParseRuleError::InvalidVnum),
        Rule::try_from("separate=")
    );
    assert_eq!(Err(ParseRuleError::InvalidVnum), Rule::try_from("separate"));
}

#[test]
fn unknown_rule() {
    assert_eq!(
        Err(ParseRuleError::UnknownRule),
        Rule::try_from("go-away=1234")
    );
}

#[test]
fn vnum_may_carry_a_plus_sign() {
    assert_eq!(Ok(Rule::Isolate(7)), Rule::try_from("isolate=+7"));
    assert_eq!(Ok(Rule::Separate(1, 2)), Rule::try_from("separate=+1,+2"));
    assert_eq!(Err(ParseRuleError::InvalidVnum), Rule::try_from("isolate=+"));
    assert_eq!(Err(ParseRuleError::InvalidVnum), Rule::try_from("isolate=-7"));
    assert_eq!(Err(ParseRuleError::InvalidVnum), Rule::try_from("isolate=++7"));
}

#[test]
fn vnum_bounds() {
    assert_eq!(Ok(Rule::Isolate(0)), Rule::try_from("isolate=0"));
    assert_eq!(Ok(Rule::Isolate(12)), Rule::try_from("isolate=0012"));
    assert_eq!(
        Ok(Rule::Isolate(4294967295)),
        Rule::try_from("isolate=4294967295")
    );
    assert_eq!(
        Err(ParseRuleError::InvalidVnum),
        Rule::try_from("isolate=4294967296")
    );
    assert_eq!(
        Err(ParseRuleError::InvalidVnum),
        Rule::try_from("isolate=99999999999999999999")
    );
}

#[test]
fn vnum_agrees_with_the_standard_parser() {
    let samples = [
        "", "+", "-", "0", "+0", "-0", "1", "42", "4294967295", "4294967296", "4294967300",
        "00000000000001", "1 ", " 1", "1a", "a1", "1_000", "٣", "+-1", "1+", "18446744073709551616",
    ];
    for text in samples {
        let ours = Rule::try_from(&format!("isolate={}", text));
        match text.parse::<u32>() {
            Ok(v) => assert_eq!(ours, Ok(Rule::Isolate(v)), "{:?}", text),
            Err(_) => assert_eq!(ours, Err(ParseRuleError::InvalidVnum), "{:?}", text),
        }
    }
}

#[test]
fn rule_is_cut_at_the_first_equals_sign() {
    assert_eq!(
        Err(ParseRuleError::InvalidVnum),
        Rule::try_from("isolate=1=2")
    );
    assert_eq!(Err(ParseRuleError::UnknownRule), Rule::try_from("=1"));
    assert_eq!(
        Err(ParseRuleError::UnknownRule),
        Rule::try_from("Isolate=1")
    );
    assert_eq!(Err(ParseRuleError::InvalidVnum), Rule::try_from(""));
    assert_eq!(Err(ParseRuleError::InvalidVnum), Rule::try_from("1234"));
}

#[test]
fn separate_is_cut_at_the_first_comma() {
    assert_eq!(
        Err(ParseRuleError::InvalidVnum),
        Rule::try_from("separate=1,2,3")
    );
    assert_eq!(
        Err(ParseRuleError::InvalidVnum),
        Rule::try_from("separate=,2")
    );
    assert_eq!(
        Err(ParseRuleError::InvalidVnum),
        Rule::try_from("separate=1,")
    );
}

#[test]
fn one_bad_rule_does_not_keep_the_others_from_being_read() {
    let texts: Vec<String> = [
        "isolate=12",
        "go-away=1234",
        "separate=1",
        "separate=3,4",
        "isolate",
        "isolate=x",
        "isolate=5",
    ]
    .iter()
    .map(|text| text.to_string())
    .collect();
    let (rules, malformed) = read_rules(&texts);
    assert_eq!(rules, vec![Rule::Isolate(12), Rule::Separate(3, 4), Rule::Isolate(5)]);
    assert_eq!(malformed, vec![2, 4, 5]);
    assert_eq!(read_rules(&vec![]), (vec![], vec![]));
}
