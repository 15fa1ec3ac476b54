use linematch::matcher::RegexPattern;
use linematch::matcher::match_pattern;
use linematch::matcher::match_with_pattern;
use linematch::matcher::parse_pattern;
use linematch::model::ParseError;

#[test]
fn literal_pattern_is_prefix_match() {
    assert_eq!(match_pattern("cats", "cat"), Ok(true));
    assert_eq!(match_pattern("cat", "cat"), Ok(true));
    assert_eq!(match_pattern("dog", "cat"), Ok(false));
    // No scan over start offsets: a literal pattern must match from the front.
    assert_eq!(match_pattern("scat", "cat"), Ok(false));
}

#[test]
fn empty_pattern_matches_everything() {
    assert_eq!(match_pattern("anything", ""), Ok(true));
    assert_eq!(match_pattern("", ""), Ok(true));
}

#[test]
fn digit_class_scans_whole_line() {
    assert_eq!(match_pattern("abc1", "\\d"), Ok(true));
    assert_eq!(match_pattern("abc", "\\d"), Ok(false));
    assert_eq!(match_pattern("7", "\\d"), Ok(true));
    assert_eq!(match_pattern("", "\\d"), Ok(false));
}

#[test]
fn digit_class_consumes_up_to_digit() {
    assert_eq!(match_pattern("ab1x", "\\dx"), Ok(true));
    assert_eq!(match_pattern("ab1y", "\\dx"), Ok(false));
}

#[test]
fn word_class_scans_whole_line() {
    assert_eq!(match_pattern("---a", "\\w"), Ok(true));
    assert_eq!(match_pattern("_", "\\w"), Ok(true));
    assert_eq!(match_pattern("5", "\\w"), Ok(true));
    assert_eq!(match_pattern("---", "\\w"), Ok(false));
}

#[test]
fn positive_set_checks_first_character() {
    assert_eq!(match_pattern("apple", "[abc]"), Ok(true));
    assert_eq!(match_pattern("dog", "[abc]"), Ok(false));
    assert_eq!(match_pattern("", "[abc]"), Ok(false));
}

#[test]
fn negative_set_checks_first_character() {
    assert_eq!(match_pattern("dog", "[^abc]"), Ok(true));
    assert_eq!(match_pattern("apple", "[^abc]"), Ok(false));
    assert_eq!(match_pattern("", "[^abc]"), Ok(false));
}

#[test]
fn immediate_closing_bracket_is_a_member() {
    assert_eq!(match_pattern("]x", "[]]"), Ok(true));
    assert_eq!(match_pattern("x", "[]]"), Ok(false));
    assert_eq!(match_pattern("a", "[^]]"), Ok(true));
    assert_eq!(match_pattern("]", "[^]]"), Ok(false));
}

#[test]
fn caret_anchors_to_line_start() {
    assert_eq!(match_pattern("abcd", "^abc"), Ok(true));
    assert_eq!(match_pattern("abc", "^abc"), Ok(true));
    assert_eq!(match_pattern("zabc", "^abc"), Ok(false));
}

#[test]
fn dollar_anchors_to_line_end() {
    assert_eq!(match_pattern("zabc", "abc$"), Ok(true));
    assert_eq!(match_pattern("abc", "abc$"), Ok(true));
    assert_eq!(match_pattern("abcz", "abc$"), Ok(false));
}

#[test]
fn lone_anchors_match_everything() {
    assert_eq!(match_pattern("whatever", "^"), Ok(true));
    assert_eq!(match_pattern("whatever", "$"), Ok(true));
}

#[test]
fn caret_composes_with_general_instructions() {
    // The anchor only pins the match to the start of the line; the rest of
    // the pattern keeps its general meaning.
    assert_eq!(match_pattern("ab", "^a."), Ok(true));
    assert_eq!(match_pattern("a", "^a."), Ok(false));
    assert_eq!(match_pattern("a5", "^a\\d"), Ok(true));
    assert_eq!(match_pattern("ab", "^a\\d"), Ok(false));
}

#[test]
fn dollar_composes_with_general_instructions() {
    // The anchor only pins the end of the match to the end of the line; the
    // match may stand at whatever offset lets it finish there.
    assert_eq!(match_pattern("xa9", "a\\d$"), Ok(true));
    assert_eq!(match_pattern("xa9z", "a\\d$"), Ok(false));
}

#[test]
fn plus_consumes_leading_run() {
    assert_eq!(match_pattern("aaab", "a+"), Ok(true));
    assert_eq!(match_pattern("a", "a+"), Ok(true));
    assert_eq!(match_pattern("baa", "a+"), Ok(false));
    assert_eq!(match_pattern("caaats", "ca+ts"), Ok(true));
    assert_eq!(match_pattern("cts", "ca+ts"), Ok(false));
}

#[test]
fn zero_or_one_takes_both_forms() {
    assert_eq!(match_pattern("b", "a?b"), Ok(true));
    assert_eq!(match_pattern("ab", "a?b"), Ok(true));
    assert_eq!(match_pattern("aab", "a?b"), Ok(false));
}

#[test]
fn dot_matches_any_single_character() {
    assert_eq!(match_pattern("abc", "a.c"), Ok(true));
    assert_eq!(match_pattern("axc", "a.c"), Ok(true));
    assert_eq!(match_pattern("ac", "a.c"), Ok(false));
    assert_eq!(match_pattern("x", "."), Ok(true));
    assert_eq!(match_pattern("", "."), Ok(false));
}

#[test]
fn alternation_advances_by_the_branch_consumption() {
    assert_eq!(match_pattern("ac", "(a|b)c"), Ok(true));
    assert_eq!(match_pattern("bc", "(a|b)c"), Ok(true));
    assert_eq!(match_pattern("cc", "(a|b)c"), Ok(false));
    assert_eq!(match_pattern("a", "(a|b)c"), Ok(false));
    // An empty right branch consumes nothing.
    assert_eq!(match_pattern("abc", "(ab)c"), Ok(true));
    assert_eq!(match_pattern("xc", "(ab)c"), Ok(false));
}

#[test]
fn compiled_patterns_can_be_cloned() {
    let first = parse_pattern("(a|b)c+d?[xy]z.\\d").unwrap();
    let second = first.clone();
    assert_eq!(first, second);
    assert_eq!(RegexPattern::Dot.clone(), RegexPattern::Dot);
}

#[test]
fn alternation_tries_both_branches() {
    assert_eq!(match_pattern("cat", "(cat|dog)"), Ok(true));
    assert_eq!(match_pattern("dog", "(cat|dog)"), Ok(true));
    assert_eq!(match_pattern("cow", "(cat|dog)"), Ok(false));
    // A branch match is prefix-style over the remaining input.
    assert_eq!(match_pattern("catalog", "(cat|dog)"), Ok(true));
}

#[test]
fn quantifier_with_nothing_before_is_a_literal() {
    assert_eq!(match_pattern("+a", "+a"), Ok(true));
    assert_eq!(match_pattern("?x", "?x"), Ok(true));
    assert_eq!(match_pattern("a", "+a"), Ok(false));
}

#[test]
fn caret_after_other_tokens_is_a_literal() {
    assert_eq!(match_pattern("a^b", "a^b"), Ok(true));
    assert_eq!(match_pattern("ab", "a^b"), Ok(false));
}

#[test]
fn escaped_backslash_matches_itself() {
    assert_eq!(match_pattern("\\x", "\\\\"), Ok(true));
    assert_eq!(match_pattern("x", "\\\\"), Ok(false));
}

#[test]
fn unterminated_set_aborts_compilation() {
    assert_eq!(parse_pattern("[abc"), Err(ParseError::UnterminatedCharSet));
    assert_eq!(match_pattern("zz", "[abc"), Err(ParseError::UnterminatedCharSet));
    assert_eq!(parse_pattern("[]"), Err(ParseError::UnterminatedCharSet));
}

#[test]
fn unterminated_group_aborts_compilation() {
    assert_eq!(parse_pattern("(cat|dog"), Err(ParseError::UnterminatedGroup));
    assert_eq!(match_pattern("cat", "(cat|dog"), Err(ParseError::UnterminatedGroup));
}

#[test]
fn unsupported_escape_aborts_compilation() {
    assert_eq!(parse_pattern("\\q"), Err(ParseError::UnsupportedEscape));
    assert_eq!(parse_pattern("\\"), Err(ParseError::UnsupportedEscape));
    assert_eq!(match_pattern("q", "\\q"), Err(ParseError::UnsupportedEscape));
}

#[test]
fn quantifier_on_non_literal_aborts_compilation() {
    assert_eq!(parse_pattern("a++"), Err(ParseError::UnsupportedQuantifier));
    assert_eq!(parse_pattern("\\d+"), Err(ParseError::UnsupportedQuantifier));
    assert_eq!(parse_pattern("[ab]?"), Err(ParseError::UnsupportedQuantifier));
}

#[test]
fn malformed_patterns_abort_even_when_anchored() {
    // Compilation always runs first, so a malformed pattern never matches,
    // whatever anchors its raw text carries.
    assert_eq!(match_pattern("z[ab", "[ab$"), Err(ParseError::UnterminatedCharSet));
    assert_eq!(match_pattern("zz", "[ab$"), Err(ParseError::UnterminatedCharSet));
    assert_eq!(match_pattern("z[ab", "^z[a"), Err(ParseError::UnterminatedCharSet));
}

#[test]
fn compiling_twice_gives_identical_sequences() {
    let first = parse_pattern("(a|b)c+d?[xy]z.\\d").unwrap();
    let second = parse_pattern("(a|b)c+d?[xy]z.\\d").unwrap();
    assert_eq!(first, second);
}

#[test]
fn compiled_form_of_each_token_kind() {
    assert_eq!(
        parse_pattern("a+b?.\\d\\w"),
        Ok(vec![
            RegexPattern::Plus('a'),
            RegexPattern::ZeroOrOne('b'),
            RegexPattern::Dot,
            RegexPattern::Digit,
            RegexPattern::Word,
        ])
    );
    assert_eq!(
        parse_pattern("[ab][^c]"),
        Ok(vec![
            RegexPattern::PositiveCharSet(vec!['a', 'b']),
            RegexPattern::NegativeCharSet(vec!['c']),
        ])
    );
    assert_eq!(
        parse_pattern("(a|b)"),
        Ok(vec![RegexPattern::Alternative(
            vec![RegexPattern::Char('a')],
            vec![RegexPattern::Char('b')],
        )])
    );
}

#[test]
fn anchors_compile_to_ordinary_instructions() {
    assert_eq!(
        parse_pattern("^abc"),
        Ok(vec![
            RegexPattern::Start,
            RegexPattern::Char('a'),
            RegexPattern::Char('b'),
            RegexPattern::Char('c'),
        ])
    );
    // An end anchor still ends the scan: nothing after it is compiled.
    assert_eq!(parse_pattern("a$bc"), Ok(vec![RegexPattern::Char('a'), RegexPattern::End]));
}

#[test]
fn group_body_splits_at_first_bar_and_drops_later_bars() {
    assert_eq!(
        parse_pattern("(a|b|c)"),
        Ok(vec![RegexPattern::Alternative(
            vec![RegexPattern::Char('a')],
            vec![RegexPattern::Char('b'), RegexPattern::Char('c')],
        )])
    );
    assert_eq!(
        parse_pattern("(ab)"),
        Ok(vec![RegexPattern::Alternative(
            vec![RegexPattern::Char('a'), RegexPattern::Char('b')],
            vec![],
        )])
    );
}

#[test]
fn group_without_bar_always_matches_through_empty_right_branch() {
    // The right branch of `(ab)` compiles to the empty sequence, which
    // matches anything, so the alternation as a whole always succeeds.
    assert_eq!(match_pattern("zzz", "(ab)"), Ok(true));
}

#[test]
fn anchor_instructions_constrain_the_cursor() {
    // A fresh match stands at the start of the line, so a start anchor
    // succeeds there; an end anchor succeeds only on an exhausted line.
    assert!(match_with_pattern("anything", &[RegexPattern::Start]));
    assert!(!match_with_pattern("anything", &[RegexPattern::End]));
    assert!(match_with_pattern("", &[RegexPattern::End]));
    assert!(match_with_pattern("anything", &[]));
}

#[test]
fn literal_followed_by_its_own_optional_skips_two_characters() {
    let pats = vec![RegexPattern::Char('a'), RegexPattern::ZeroOrOne('a')];
    // Normal consumption.
    assert!(match_with_pattern("aa", &pats));
    assert!(match_with_pattern("a", &pats));
    // The lookahead exception: the pair is skipped and two characters are
    // consumed unconditionally.
    assert!(match_with_pattern("xy", &pats));
    // Fewer than two characters remain, so the skip cannot happen.
    assert!(!match_with_pattern("x", &pats));
}

#[test]
fn lookahead_needs_the_same_character() {
    let pats = vec![RegexPattern::Char('a'), RegexPattern::ZeroOrOne('b')];
    assert!(!match_with_pattern("xy", &pats));
    assert!(match_with_pattern("ab", &pats));
    assert!(match_with_pattern("a", &pats));
}

#[test]
fn anchors_on_both_ends_pin_the_whole_line() {
    assert_eq!(match_pattern("ab", "^ab$"), Ok(true));
    assert_eq!(match_pattern("abx", "^ab$"), Ok(false));
    assert_eq!(match_pattern("xab", "^ab$"), Ok(false));
    assert_eq!(match_pattern("ab$x", "^ab$"), Ok(false));
}

#[test]
fn plus_consumption_is_greedy() {
    // After `a+` consumes the whole run, a following `a` cannot match.
    assert_eq!(match_pattern("aaa", "a+a"), Ok(false));
    assert_eq!(match_pattern("aab", "a+b"), Ok(true));
}
