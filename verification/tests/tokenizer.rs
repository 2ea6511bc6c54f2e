use my_basic_cli_tools::parse_command::input_utils::{
    split_input_outside_quotes, split_input_outside_quotes_on_whitespace,
};

fn split(input: &str) -> Vec<String> {
    split_input_outside_quotes_on_whitespace(input.to_string())
}

fn strings(items: &[&str]) -> Vec<String> {
    items.iter().map(|item| item.to_string()).collect()
}

#[test]
fn empty_input_yields_one_empty_token() {
    assert_eq!(split(""), strings(&[""]));
}

#[test]
fn repeated_spaces_yield_no_empty_tokens() {
    assert_eq!(split("a  b"), strings(&["a", "b"]));
}

#[test]
fn quoted_span_keeps_its_space_and_loses_its_quotes() {
    assert_eq!(split("\"a b\" c"), strings(&["a b", "c"]));
}

#[test]
fn unterminated_quote_keeps_the_rest_in_the_last_token() {
    assert_eq!(split("a \"b c"), strings(&["a", "b c"]));
    assert_eq!(split("\"a b\" \"c d"), strings(&["a b", "c d"]));
    assert_eq!(split("x\"  y  "), strings(&["x  y  "]));
}

#[test]
fn lone_quote_yields_one_empty_token() {
    assert_eq!(split("\""), strings(&[""]));
}

#[test]
fn single_word_is_one_token() {
    assert_eq!(split("exit"), strings(&["exit"]));
}

#[test]
fn trailing_space_leaves_an_empty_last_token() {
    assert_eq!(split("a "), strings(&["a", ""]));
    assert_eq!(split("a   "), strings(&["a", ""]));
}

#[test]
fn leading_spaces_are_skipped() {
    assert_eq!(split("   a"), strings(&["a"]));
}

#[test]
fn only_spaces_yield_one_empty_token() {
    assert_eq!(split("    "), strings(&[""]));
}

#[test]
fn consecutive_quotes_only_toggle() {
    assert_eq!(split("a\"\"b"), strings(&["ab"]));
    assert_eq!(split("\"\""), strings(&[""]));
    assert_eq!(split("a\"\" b"), strings(&["a", "b"]));
}

#[test]
fn empty_quoted_span_makes_no_token_of_its_own() {
    assert_eq!(split("\"\" a"), strings(&["a"]));
    assert_eq!(split("a \"\" b"), strings(&["a", "b"]));
}

#[test]
fn quotes_inside_a_word_join_its_parts() {
    assert_eq!(split("a\"b c\"d e"), strings(&["ab cd", "e"]));
}

#[test]
fn quoted_spaces_alone_are_a_token() {
    assert_eq!(split("\"  \" x"), strings(&["  ", "x"]));
}

#[test]
fn other_whitespace_does_not_split() {
    assert_eq!(split("a\tb\nc"), strings(&["a\tb\nc"]));
}

#[test]
fn characters_beyond_ascii_are_kept() {
    assert_eq!(split("h\u{e9} \"\u{4e16} \u{754c}\" \u{1f600}"), strings(&["h\u{e9}", "\u{4e16} \u{754c}", "\u{1f600}"]));
}

#[test]
fn backslash_does_not_escape_a_quote() {
    assert_eq!(split("a\\\"b c\\\" d"), strings(&["a\\b c\\", "d"]));
}

#[test]
fn custom_delimiter_splits_outside_quotes_only() {
    assert_eq!(
        split_input_outside_quotes("a,\"b,c\",,d e".to_string(), ','),
        strings(&["a", "b,c", "d e"])
    );
}

#[test]
fn quote_as_delimiter_is_still_a_quote() {
    assert_eq!(split_input_outside_quotes("a\"b\"c".to_string(), '"'), strings(&["abc"]));
}

#[test]
fn whitespace_split_is_the_split_on_space() {
    for input in ["", "a", "a b", " a  \"b c\" d ", "\"", "x\" y"] {
        assert_eq!(split(input), split_input_outside_quotes(input.to_string(), ' '));
    }
}

#[test]
fn tokens_never_hold_a_quote_and_only_the_last_may_be_empty() {
    let inputs = [
        "",
        " ",
        "a",
        "a b c",
        "  a   b  ",
        "\"a b\" c",
        "\"\"\"",
        "a\" \"b \" c",
        "\" \" \" \"",
        "echo \"hello   world\"  again ",
    ];
    for input in inputs {
        let tokens = split(input);
        assert!(!tokens.is_empty());
        for token in &tokens {
            assert!(!token.contains('"'));
        }
        for token in &tokens[..tokens.len() - 1] {
            assert!(!token.is_empty());
        }
    }
}

#[test]
fn unquoted_tokens_never_hold_the_delimiter() {
    for input in ["a b", "  a  b  ", "one two  three   ", " "] {
        for token in split(input) {
            assert!(!token.contains(' '));
        }
    }
}

#[test]
fn text_after_the_last_of_an_odd_number_of_quotes_ends_the_last_token() {
    let input = "ls \"my dir\" \"rest of  the line";
    let last_quote = input.rfind('"').unwrap();
    let before = split(&input[..last_quote]);
    let all = split(input);
    assert_eq!(all[..all.len() - 1], before[..before.len() - 1]);
    let mut expected = before[before.len() - 1].clone();
    expected.push_str(&input[last_quote + 1..]);
    assert_eq!(all[all.len() - 1], expected);
    assert_eq!(all, strings(&["ls", "my dir", "rest of  the line"]));
}
