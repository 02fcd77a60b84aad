use witchhat_core::clean::{
    apply_rules, clean_with_preset, preset, preset_pattern, CleanRule, CleanupVersion,
};

fn strings(values: &[&str]) -> Vec<Option<String>> {
    values.iter().map(|v| Some(v.to_string())).collect()
}

fn value(column: &[Option<String>], i: usize) -> &str {
    column[i].as_deref().unwrap()
}

#[test]
fn nulls_pass_through() {
    let input = vec![None];
    let out = clean_with_preset(&input, "trim_whitespace", CleanupVersion::CURRENT).unwrap();
    assert!(out[0].is_none());
}

#[test]
fn trim_whitespace_preset() {
    let input = strings(&["  hello  "]);
    let out = clean_with_preset(&input, "trim_whitespace", CleanupVersion::CURRENT).unwrap();
    assert_eq!(value(&out, 0), "hello");
}

#[test]
fn collapse_whitespace_preset() {
    let input = strings(&["a    b\t\tc"]);
    let out = clean_with_preset(&input, "collapse_whitespace", CleanupVersion::CURRENT).unwrap();
    assert_eq!(value(&out, 0), "a b c");
}

#[test]
fn strip_control_characters_preset() {
    let input = strings(&["a\u{0007}b\u{001B}c"]);
    let out =
        clean_with_preset(&input, "strip_control_characters", CleanupVersion::CURRENT).unwrap();
    assert_eq!(value(&out, 0), "abc");
}

#[test]
fn strip_non_alphanumeric_preset() {
    let input = strings(&["a-b_c!d 1"]);
    let out = clean_with_preset(&input, "strip_non_alphanumeric", CleanupVersion::CURRENT).unwrap();
    assert_eq!(value(&out, 0), "abcd 1");
}

#[test]
fn digits_only_preset() {
    let input = strings(&["+1 (555) 123-4567"]);
    let out = clean_with_preset(&input, "digits_only", CleanupVersion::CURRENT).unwrap();
    assert_eq!(value(&out, 0), "15551234567");
}

#[test]
fn unknown_preset_errors() {
    let input = strings(&["x"]);
    assert!(clean_with_preset(&input, "no_such_preset", CleanupVersion::CURRENT).is_err());
}

#[test]
fn rules_apply_in_order() {
    let input = strings(&["  a   b  "]);
    let rules = vec![
        CleanRule::new(r"^\s+|\s+$", "").unwrap(),
        CleanRule::new(r"\s+", " ").unwrap(),
    ];
    let out = apply_rules(&input, &rules);
    assert_eq!(value(&out, 0), "a b");
}

#[test]
fn invalid_pattern_errors() {
    assert!(CleanRule::new("(unclosed", "").is_err());
}

#[test]
fn lookaround_and_backreferences_are_rejected_not_silently_different() {
    assert!(CleanRule::new(r"foo(?=bar)", "").is_err());
    assert!(CleanRule::new(r"(?<=foo)bar", "").is_err());
    assert!(CleanRule::new(r"(\w+)\s\1", "").is_err());
}

#[test]
fn rules_of_the_documented_example() {
    let input = vec![Some("  a   b  ".to_string()), None];
    let rules = vec![
        CleanRule::new(r"^\s+|\s+$", "").unwrap(),
        CleanRule::new(r"\s+", " ").unwrap(),
    ];
    let out = apply_rules(&input, &rules);
    assert_eq!(value(&out, 0), "a b");
    assert!(out[1].is_none());
    assert_eq!(out.len(), 2);
}

#[test]
fn rules_in_another_order_give_another_result() {
    let input = strings(&["ab"]);
    let first = CleanRule::new("a", "b").unwrap();
    let second = CleanRule::new("b", "c").unwrap();
    let out = apply_rules(&input, &[first.clone(), second.clone()]);
    assert_eq!(value(&out, 0), "cc");
    let out = apply_rules(&input, &[second, first]);
    assert_eq!(value(&out, 0), "bc");
}

#[test]
fn rules_in_two_steps_give_what_they_give_in_one() {
    let input = vec![Some(" a\u{0007}  1 ".to_string()), None];
    let first = preset("strip_control_characters", CleanupVersion::CURRENT).unwrap();
    let second = preset("collapse_whitespace", CleanupVersion::CURRENT).unwrap();
    let stepwise = apply_rules(&apply_rules(&input, &first), &second);
    let mut both = first.clone();
    both.extend(second);
    assert_eq!(apply_rules(&input, &both), stepwise);
    assert_eq!(value(&stepwise, 0), " a 1 ");
}

#[test]
fn no_rules_change_nothing() {
    let input = vec![Some(" x ".to_string()), None];
    assert_eq!(apply_rules(&input, &[]), input);
}

#[test]
fn replacement_refers_to_groups() {
    let rule = CleanRule::new(r"(\w+)@(\w+)", "$2 at ${1}$$").unwrap();
    let out = apply_rules(&strings(&["me@home"]), &[rule]);
    assert_eq!(value(&out, 0), "home at me$");
}

#[test]
fn refusal_carries_the_compilers_words() {
    let error = CleanRule::new("(unclosed", "").unwrap_err();
    let words = regex::Regex::new("(unclosed").unwrap_err().to_string();
    assert_eq!(error.message(), format!("invalid configuration: {words}"));
}

#[test]
fn unknown_preset_message() {
    let error = preset("no \"such\"", CleanupVersion::CURRENT).unwrap_err();
    assert_eq!(
        error.message(),
        "invalid configuration: unknown cleanup preset \"no \\\"such\\\"\" for version v1"
    );
}

#[test]
fn preset_patterns() {
    assert_eq!(
        preset_pattern("collapse_whitespace", CleanupVersion::V1),
        Some((r"\s+", " "))
    );
    assert_eq!(preset_pattern("Trim_whitespace", CleanupVersion::V1), None);
    assert_eq!(
        preset("trim_whitespace", CleanupVersion::CURRENT)
            .unwrap()
            .len(),
        1
    );
}

#[test]
fn cleanup_version_names_round_trip() {
    assert_eq!(
        CleanupVersion::parse(CleanupVersion::CURRENT.as_str()),
        Some(CleanupVersion::V1)
    );
    assert_eq!(CleanupVersion::parse("v2"), None);
    assert_eq!(CleanupVersion::default(), CleanupVersion::CURRENT);
}

#[test]
fn letters_and_digits_of_any_script_are_left() {
    let input = strings(&["Ærø_№ 東京-\u{0663}!\u{00A0}é"]);
    let out = clean_with_preset(&input, "strip_non_alphanumeric", CleanupVersion::V1).unwrap();
    assert_eq!(value(&out, 0), "Ærø 東京\u{0663}\u{00A0}é");
}

#[test]
fn white_space_alone_is_trimmed_away() {
    let input = strings(&[" \t\u{3000}\n", "", "\u{0085}a b\n c\n\n", "a\n"]);
    let out = clean_with_preset(&input, "trim_whitespace", CleanupVersion::V1).unwrap();
    assert_eq!(out, strings(&["", "", "a b\n c", "a"]));
}

#[test]
fn every_character_counts_as_it_should() {
    let all: Vec<char> = ('\0'..=char::MAX).collect();
    let text: String = all.iter().collect();
    let spaced: String = all.iter().flat_map(|c| ['x', *c, *c]).collect();
    let clean = |text: &str, name: &str| {
        let out = clean_with_preset(&strings(&[text]), name, CleanupVersion::V1).unwrap();
        value(&out, 0).to_string()
    };
    let digits: String = all.iter().filter(|c| c.is_ascii_digit()).collect();
    assert_eq!(clean(&text, "digits_only"), digits);
    let printable: String = all.iter().filter(|c| !c.is_ascii_control()).collect();
    assert!(clean(&text, "strip_control_characters") == printable);
    let collapsed: String = all
        .iter()
        .map(|c| {
            if c.is_whitespace() {
                "x ".to_string()
            } else {
                format!("x{c}{c}")
            }
        })
        .collect();
    assert!(clean(&spaced, "collapse_whitespace") == collapsed);
    let left = clean(&text, "strip_non_alphanumeric");
    let ascii: String = left.chars().filter(char::is_ascii).collect();
    let expected: String = ('\0'..='\x7F')
        .filter(|c| c.is_ascii_alphanumeric() || c.is_whitespace())
        .collect();
    assert_eq!(ascii, expected);
    let spaces = |text: &str| text.chars().filter(|c| c.is_whitespace()).count();
    assert_eq!(spaces(&left), spaces(&text));
}

#[test]
fn presets_are_idempotent() {
    let input = vec![
        Some(" \t a\u{0007}\u{2003} é-_1\u{0661}  \n".to_string()),
        None,
        Some("   ".to_string()),
        Some(String::new()),
    ];
    for name in [
        "trim_whitespace",
        "collapse_whitespace",
        "strip_control_characters",
        "strip_non_alphanumeric",
        "digits_only",
    ] {
        let once = clean_with_preset(&input, name, CleanupVersion::V1).unwrap();
        let twice = clean_with_preset(&once, name, CleanupVersion::V1).unwrap();
        assert_eq!(twice, once);
        assert_ne!(once, input);
    }
}
