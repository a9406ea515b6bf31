use simple_cells::error::{check_device, AutomataError, ErrorKind};
use simple_cells::life::Rule;

#[test]
fn parses_conway() {
    let rule = Rule::parse("B3/S23").unwrap();
    assert_eq!(rule.borns, 0b0000_1000);
    assert_eq!(rule.survives, 0b0000_1100);
    assert!(!rule.births_from_zero());
}

#[test]
fn parses_every_count() {
    let rule = Rule::parse("B012345678/S012345678").unwrap();
    assert_eq!(rule.borns, 0x1ff);
    assert_eq!(rule.survives, 0x1ff);
    assert!(rule.births_from_zero());
}

#[test]
fn parses_empty_sets() {
    let rule = Rule::parse("B/S").unwrap();
    assert_eq!(rule, Rule { borns: 0, survives: 0 });
}

#[test]
fn parses_digits_in_any_order_and_twice() {
    let rule = Rule::parse("B63/S3223").unwrap();
    assert_eq!(rule.borns, (1 << 3) | (1 << 6));
    assert_eq!(rule.survives, (1 << 2) | (1 << 3));
}

#[test]
fn parses_highlife_and_seeds() {
    assert_eq!(Rule::parse("B36/S23").unwrap(), Rule { borns: 0x48, survives: 0x0c });
    assert_eq!(Rule::parse("B2/S").unwrap(), Rule { borns: 0x04, survives: 0 });
    assert_eq!(Rule::parse("B8/S8").unwrap(), Rule { borns: 0x100, survives: 0x100 });
}

#[test]
fn rejects_wrong_prefixes() {
    let format = AutomataError { kind: ErrorKind::Format };
    assert_eq!(Rule::parse("S23/B3"), Err(format));
    assert_eq!(Rule::parse("b3/s23"), Err(format));
    assert_eq!(Rule::parse("3/S23"), Err(format));
    assert_eq!(Rule::parse("B3/23"), Err(format));
    assert_eq!(Rule::parse("B3S23"), Err(format));
    assert_eq!(Rule::parse("B3"), Err(format));
    assert_eq!(Rule::parse("B3/"), Err(format));
    assert_eq!(Rule::parse(""), Err(format));
    assert_eq!(Rule::parse("B"), Err(format));
    assert_eq!(Rule::parse("/S"), Err(format));
}

#[test]
fn rejects_digit_nine_and_other_characters() {
    let format = AutomataError { kind: ErrorKind::Format };
    assert_eq!(Rule::parse("B9/S23"), Err(format));
    assert_eq!(Rule::parse("B3/S29"), Err(format));
    assert_eq!(Rule::parse("B3/S23 "), Err(format));
    assert_eq!(Rule::parse(" B3/S23"), Err(format));
    assert_eq!(Rule::parse("B3/S23/"), Err(format));
    assert_eq!(Rule::parse("B3/S2x3"), Err(format));
    assert_eq!(Rule::parse("B3/S2\u{00e9}"), Err(format));
    assert_eq!(Rule::parse("B\u{0663}/S23"), Err(format));
}

#[test]
fn reads_rule_from_seed_description() {
    let rule = Rule::from_seed_json("{\"rulestring\": \"B36/S23\", \"n\": 0}").unwrap();
    assert_eq!(rule, Rule { borns: 0x48, survives: 0x0c });
    let rule = Rule::from_seed_json("{\"n\": 12, \"rulestring\": \"B0/S8\"}").unwrap();
    assert_eq!(rule, Rule { borns: 0x01, survives: 0x100 });
}

#[test]
fn seed_description_is_not_taken_for_the_rule() {
    // The description as a whole is no rule string; only what stands under
    // the key is read.
    assert!(Rule::parse("{\"rulestring\": \"B3/S23\"}").is_err());
    assert!(Rule::from_seed_json("{\"rulestring\": \"B3/S23\"}").is_ok());
    assert!(Rule::from_seed_json("B3/S23").is_err());
}

#[test]
fn rejects_seed_description_without_rule() {
    let format = AutomataError { kind: ErrorKind::Format };
    assert_eq!(Rule::from_seed_json("{\"n\": 0}"), Err(format));
    assert_eq!(Rule::from_seed_json("{\"rulestring\": 323}"), Err(format));
    assert_eq!(Rule::from_seed_json("[\"B3/S23\"]"), Err(format));
    assert_eq!(Rule::from_seed_json("{\"rulestring\": "), Err(format));
    assert_eq!(Rule::from_seed_json(""), Err(format));
    assert_eq!(Rule::from_seed_json("{\"rulestring\": \"B3/S9\"}"), Err(format));
}

#[test]
fn from_found_reads_or_rejects() {
    assert_eq!(
        Rule::from_found(Some("B3/S23".to_string())),
        Ok(Rule { borns: 0x08, survives: 0x0c })
    );
    assert_eq!(Rule::from_found(None), Err(AutomataError { kind: ErrorKind::Format }));
    assert_eq!(
        Rule::from_found(Some("B3-S23".to_string())),
        Err(AutomataError { kind: ErrorKind::Format })
    );
}

#[test]
fn device_index_must_exist() {
    assert_eq!(check_device(0, 1), Ok(()));
    assert_eq!(check_device(2, 3), Ok(()));
    assert_eq!(check_device(0, 0), Err(AutomataError { kind: ErrorKind::Backend }));
    assert_eq!(check_device(3, 3), Err(AutomataError { kind: ErrorKind::Backend }));
}

#[test]
fn every_error_has_its_text() {
    let kinds = [
        ErrorKind::Format,
        ErrorKind::Dimension,
        ErrorKind::Parallelism,
        ErrorKind::Seed,
        ErrorKind::Size,
        ErrorKind::Row,
        ErrorKind::Backend,
    ];
    for (i, a) in kinds.iter().enumerate() {
        let text = AutomataError { kind: *a }.message();
        assert!(!text.is_empty());
        for b in kinds.iter().skip(i + 1) {
            assert_ne!(text, AutomataError { kind: *b }.message());
        }
    }
    assert_eq!(
        AutomataError { kind: ErrorKind::Backend }.message(),
        "Cannot find a suitable OpenCL device for gpu_i."
    );
}

#[test]
fn only_the_key_rulestring_is_read() {
    let format = AutomataError { kind: ErrorKind::Format };
    assert_eq!(Rule::from_seed_json("{\"rule\": \"B3/S23\"}"), Err(format));
    assert_eq!(Rule::from_seed_json("{\"rulestrings\": \"B3/S23\"}"), Err(format));
    assert_eq!(Rule::from_seed_json("{\"Rulestring\": \"B3/S23\"}"), Err(format));
    assert_eq!(
        Rule::from_seed_json("{\"rule\": \"B2/S\", \"rulestring\": \"B36/S23\"}"),
        Ok(Rule { borns: 0x48, survives: 0x0c })
    );
    assert_eq!(
        Rule::from_seed_json("{\"seed\": {\"rulestring\": \"B36/S23\"}}"),
        Err(format)
    );
}

#[test]
fn seed_description_up_to_the_longest_is_read() {
    let body = "{\"rulestring\": \"B3/S23\"}";
    let mut text = String::from(body);
    while text.chars().count() < 32_768 {
        text.push(' ');
    }
    assert_eq!(text.chars().count(), 32_768);
    assert_eq!(Rule::from_seed_json(&text), Ok(Rule { borns: 0x08, survives: 0x0c }));
    text.push(' ');
    assert_eq!(
        Rule::from_seed_json(&text),
        Err(AutomataError { kind: ErrorKind::Format })
    );
}

#[test]
fn seed_description_is_measured_in_characters() {
    let mut text = String::from("{\"rulestring\": \"B3/S23\", \"note\": \"");
    for _ in 0..20_000 {
        text.push('\u{00e9}');
    }
    text.push_str("\"}");
    assert!(text.len() > 32_768);
    assert!(text.chars().count() <= 32_768);
    assert_eq!(Rule::from_seed_json(&text), Ok(Rule { borns: 0x08, survives: 0x0c }));
}

#[test]
fn long_fractions_in_a_seed_description() {
    // A fraction of many digits that still fits is read like any number.
    let mut text = String::from("{\"rulestring\": \"B3/S23\", \"n\": 0.");
    for _ in 0..32_700 {
        text.push('0');
    }
    text.push('}');
    assert!(text.chars().count() <= 32_768);
    assert_eq!(Rule::from_seed_json(&text), Ok(Rule { borns: 0x08, survives: 0x0c }));

    let mut bare = String::from("0.");
    for _ in 0..32_766 {
        bare.push('0');
    }
    assert_eq!(bare.chars().count(), 32_768);
    assert_eq!(Rule::from_seed_json(&bare), Err(AutomataError { kind: ErrorKind::Format }));

    // One with more digits than the description may have characters is
    // rejected unread.
    let mut text = String::from("{\"rulestring\": \"B3/S23\", \"n\": 0.");
    for _ in 0..40_000 {
        text.push('0');
    }
    text.push('}');
    assert_eq!(
        Rule::from_seed_json(&text),
        Err(AutomataError { kind: ErrorKind::Format })
    );
    let mut bare = String::from("-0.");
    for _ in 0..32_769 {
        bare.push('0');
    }
    assert_eq!(Rule::from_seed_json(&bare), Err(AutomataError { kind: ErrorKind::Format }));
}

#[test]
fn seed_descriptions_that_are_no_json() {
    let format = AutomataError { kind: ErrorKind::Format };
    for text in [
        "{\"rulestring\": \"B3/S23\"} x",
        "{\"rulestring\": \"B3/S23\", }",
        "{\"rulestring\": tru\u{00e9}}",
        "\u{00e9}",
        "{\"rulestring\": \"B3/S23\\u00e9\"}",
        "{\"rulestring\": \"B3/S23\\ud800\"}",
        "{\"rulestring\": 1e99999}",
        "{\"rulestring\": 123456789012345678901234567890.5e-40000}",
        "nul",
        "[[[[",
    ] {
        assert_eq!(Rule::from_seed_json(text), Err(format), "{}", text);
    }
    assert_eq!(
        Rule::from_seed_json("{\"rulestring\": \"B\\u0033/S23\"}"),
        Ok(Rule { borns: 0x08, survives: 0x0c })
    );
}
