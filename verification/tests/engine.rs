use ruleparse::FastMatcher;
use ruleparse::RegexRule;
use ruleparse::TextParser;
use ruleparse::Token;
use ruleparse::TokenType;

#[test]
fn token_new_has_tag_text_and_no_metadata() {
    let t = Token::new(String::from("word"), String::from("hello"));
    assert_eq!(t.token_type, "word");
    assert_eq!(t.content, "hello");
    assert!(t.get_metadata("anything").is_none());
}

#[test]
fn token_metadata_round_trip() {
    let mut t = Token::new(String::from("word"), String::from("hello"));
    t.add_metadata(String::from("k"), String::from("v"));
    assert_eq!(t.get_metadata("k"), Some(String::from("v")));
    assert!(t.get_metadata("absent").is_none());
}

#[test]
fn token_metadata_last_write_wins() {
    let mut t = Token::new(String::from("word"), String::from("hello"));
    t.add_metadata(String::from("k"), String::from("first"));
    t.add_metadata(String::from("other"), String::from("x"));
    t.add_metadata(String::from("k"), String::from("second"));
    assert_eq!(t.get_metadata("k"), Some(String::from("second")));
    assert_eq!(t.get_metadata("other"), Some(String::from("x")));
}

#[test]
fn token_type_variants_compare() {
    assert_eq!(TokenType::DiceRoll, TokenType::DiceRoll);
    assert_ne!(TokenType::Dialogue, TokenType::Unknown);
    let all = vec![
        TokenType::Metadata,
        TokenType::DiceRoll,
        TokenType::Dialogue,
        TokenType::Action,
        TokenType::Ooc,
        TokenType::System,
        TokenType::Text,
        TokenType::Unknown,
    ];
    assert_eq!(all.len(), 8);
}

#[test]
fn rule_rejects_invalid_pattern() {
    let r = RegexRule::new(String::from("("), String::from("x"), 1);
    assert!(r.is_err());
    let e = r.err().unwrap();
    assert!(!e.message.is_empty());
}

#[test]
fn rule_matches_and_accessors() {
    let r = RegexRule::new(String::from("\\d+"), String::from("number"), 3).unwrap();
    assert!(r.matches("abc 123"));
    assert!(!r.matches("abc"));
    assert_eq!(r.rule_type(), "number");
    assert_eq!(r.priority(), 3);
    assert_eq!(r.pattern_text(), "\\d+");
}

#[test]
fn rule_extract_returns_capture_groups() {
    let r = RegexRule::new(String::from("(\\w+)@(\\w+)"), String::from("mail"), 1).unwrap();
    let got = r.extract("write to user@host now");
    assert_eq!(got, Some(vec![String::from("user"), String::from("host")]));
}

#[test]
fn rule_extract_omits_group_that_did_not_participate() {
    let r = RegexRule::new(String::from("(a)(b)?"), String::from("t"), 1).unwrap();
    assert_eq!(r.extract("a"), Some(vec![String::from("a")]));
}

#[test]
fn rule_extract_absent_on_no_match() {
    let r = RegexRule::new(String::from("\\d+"), String::from("number"), 1).unwrap();
    assert_eq!(r.extract("no digits"), None);
}

#[test]
fn rule_find_all_reports_offsets_in_scan_order() {
    let r = RegexRule::new(String::from("\\d+"), String::from("number"), 1).unwrap();
    let got = r.find_all("a1b22c333");
    let want = vec![
        (1usize, 2usize, String::from("1")),
        (3usize, 5usize, String::from("22")),
        (6usize, 9usize, String::from("333")),
    ];
    assert_eq!(got, want);
}

#[test]
fn parser_empty_rule_set_yields_empty_result() {
    let p = TextParser::new();
    assert_eq!(p.rule_count(), 0);
    assert!(p.parse_line("anything").is_empty());
}

#[test]
fn parser_invalid_pattern_leaves_rules_unchanged() {
    let mut p = TextParser::new();
    p.add_rule(String::from("\\w+"), String::from("word"), 1).unwrap();
    assert_eq!(p.rule_count(), 1);
    let r = p.add_rule(String::from("("), String::from("x"), 1);
    assert!(r.is_err());
    assert_eq!(p.rule_count(), 1);
}

#[test]
fn parser_priority_wins_same_span() {
    let mut p = TextParser::new();
    p.add_rule(String::from("abc"), String::from("lo"), 1).unwrap();
    p.add_rule(String::from("abc"), String::from("hi"), 10).unwrap();
    let got = p.parse_line("abc");
    let want = vec![(String::from("hi"), String::from("abc"), 0usize, 3usize)];
    assert_eq!(got, want);
}

#[test]
fn parser_equal_priority_keeps_both_disjoint_matches() {
    let mut p = TextParser::new();
    p.add_rule(String::from("a"), String::from("r1"), 5).unwrap();
    p.add_rule(String::from("b"), String::from("r2"), 5).unwrap();
    let got = p.parse_line("ab");
    let want = vec![
        (String::from("r1"), String::from("a"), 0usize, 1usize),
        (String::from("r2"), String::from("b"), 1usize, 2usize),
    ];
    assert_eq!(got, want);
}

#[test]
fn parser_decimal_beats_number_end_to_end() {
    let mut p = TextParser::new();
    p.add_rule(String::from("\\d+"), String::from("number"), 5).unwrap();
    p.add_rule(String::from("\\d+\\.\\d+"), String::from("decimal"), 10).unwrap();
    let got = p.parse_line("value 3.14 end");
    let want = vec![(String::from("decimal"), String::from("3.14"), 6usize, 10usize)];
    assert_eq!(got, want);
}

#[test]
fn parser_touching_spans_do_not_overlap() {
    let mut p = TextParser::new();
    p.add_rule(String::from("ab"), String::from("first"), 2).unwrap();
    p.add_rule(String::from("cd"), String::from("second"), 1).unwrap();
    let got = p.parse_line("abcd");
    let want = vec![
        (String::from("first"), String::from("ab"), 0usize, 2usize),
        (String::from("second"), String::from("cd"), 2usize, 4usize),
    ];
    assert_eq!(got, want);
}

#[test]
fn parser_one_rule_claims_several_disjoint_spans() {
    let mut p = TextParser::new();
    p.add_rule(String::from("\\d"), String::from("digit"), 1).unwrap();
    let got = p.parse_line("1a2");
    let want = vec![
        (String::from("digit"), String::from("1"), 0usize, 1usize),
        (String::from("digit"), String::from("2"), 2usize, 3usize),
    ];
    assert_eq!(got, want);
}

#[test]
fn parser_result_is_sorted_by_start_across_priorities() {
    let mut p = TextParser::new();
    p.add_rule(String::from("z"), String::from("late"), 10).unwrap();
    p.add_rule(String::from("a"), String::from("early"), 1).unwrap();
    let got = p.parse_line("az");
    let want = vec![
        (String::from("early"), String::from("a"), 0usize, 1usize),
        (String::from("late"), String::from("z"), 1usize, 2usize),
    ];
    assert_eq!(got, want);
}

#[test]
fn parser_lower_priority_loses_even_a_different_sub_span() {
    let mut p = TextParser::new();
    p.add_rule(String::from("ab"), String::from("wide"), 9).unwrap();
    p.add_rule(String::from("b"), String::from("narrow"), 1).unwrap();
    let got = p.parse_line("ab");
    let want = vec![(String::from("wide"), String::from("ab"), 0usize, 2usize)];
    assert_eq!(got, want);
}

#[test]
fn parser_parse_lines_keeps_line_order_and_independence() {
    let mut p = TextParser::new();
    p.add_rule(String::from("\\d+"), String::from("number"), 1).unwrap();
    let got = p.parse_lines(vec![String::from("a1"), String::from("no"), String::from("22")]);
    assert_eq!(got.len(), 3);
    assert_eq!(got[0], vec![(String::from("number"), String::from("1"), 1usize, 2usize)]);
    assert!(got[1].is_empty());
    assert_eq!(got[2], vec![(String::from("number"), String::from("22"), 0usize, 2usize)]);
}

#[test]
fn parser_clear_rules_resets_to_empty() {
    let mut p = TextParser::new();
    p.add_rule(String::from("a"), String::from("t"), 1).unwrap();
    assert_eq!(p.rule_count(), 1);
    p.clear_rules();
    assert_eq!(p.rule_count(), 0);
    assert!(p.parse_line("a").is_empty());
}

#[test]
fn matcher_contains_any() {
    let m = FastMatcher::new(vec![String::from("foo"), String::from("bar")]);
    assert!(m.contains_any("a bar here"));
    assert!(!m.contains_any("xyz"));
}

#[test]
fn matcher_find_matches_keeps_order_and_duplicates() {
    let m = FastMatcher::new(vec![
        String::from("foo"),
        String::from("bar"),
        String::from("foo"),
    ]);
    let got = m.find_matches("foo bar");
    assert_eq!(got, vec![String::from("foo"), String::from("bar"), String::from("foo")]);
    assert_eq!(m.find_matches("bar only"), vec![String::from("bar")]);
}

#[test]
fn matcher_counts_non_overlapping_occurrences() {
    let m = FastMatcher::new(vec![String::from("aa")]);
    assert_eq!(m.count_matches("aaaa"), vec![(String::from("aa"), 2usize)]);
    assert_eq!(m.count_matches("aaa"), vec![(String::from("aa"), 1usize)]);
}

#[test]
fn matcher_counts_empty_pattern_at_every_boundary() {
    let m = FastMatcher::new(vec![String::from("")]);
    assert_eq!(m.count_matches("abc"), vec![(String::from(""), 4usize)]);
}

#[test]
fn parser_empty_line_yields_empty_result() {
    let mut p = TextParser::new();
    p.add_rule(String::from("\\w+"), String::from("word"), 1).unwrap();
    assert!(p.parse_line("").is_empty());
}

#[test]
fn matcher_with_no_patterns_matches_nothing() {
    let m = FastMatcher::new(Vec::new());
    assert!(!m.contains_any("anything"));
    assert!(m.find_matches("anything").is_empty());
    assert!(m.count_matches("anything").is_empty());
}

#[test]
fn matcher_handles_multibyte_characters() {
    let m = FastMatcher::new(vec![String::from("\u{e9}")]);
    assert!(m.contains_any("\u{e9}t\u{e9}"));
    assert_eq!(m.count_matches("\u{e9}t\u{e9}"), vec![(String::from("\u{e9}"), 2usize)]);
}

#[test]
fn matcher_counts_each_stored_pattern() {
    let m = FastMatcher::new(vec![String::from("a"), String::from("zz")]);
    let got = m.count_matches("a zz a zz zz");
    assert_eq!(got, vec![(String::from("a"), 2usize), (String::from("zz"), 3usize)]);
}
