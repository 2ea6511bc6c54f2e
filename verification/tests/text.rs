use my_basic_cli_tools::text::{join_strings, push_decimal};

fn decimal(n: usize) -> String {
    let mut text = String::new();
    push_decimal(&mut text, n);
    text
}

#[test]
fn single_digits_render_as_themselves() {
    let expected = ["0", "1", "2", "3", "4", "5", "6", "7", "8", "9"];
    for (n, digit) in expected.iter().enumerate() {
        assert_eq!(decimal(n), *digit);
    }
}

#[test]
fn numbers_render_without_leading_zeros() {
    assert_eq!(decimal(10), "10");
    assert_eq!(decimal(42), "42");
    assert_eq!(decimal(100), "100");
    assert_eq!(decimal(1_000_000), "1000000");
    assert_eq!(decimal(9_876_543_210), "9876543210");
}

#[test]
fn largest_count_renders_as_std_renders_it() {
    assert_eq!(decimal(usize::MAX), format!("{}", usize::MAX));
}

#[test]
fn decimal_rendering_agrees_with_std() {
    let mut n: usize = 0;
    while n < 5000 {
        assert_eq!(decimal(n), format!("{}", n));
        n += 7;
    }
}

#[test]
fn decimal_is_appended_to_what_is_there() {
    let mut text = "got ".to_string();
    push_decimal(&mut text, 305);
    assert_eq!(text, "got 305");
}

#[test]
fn joining_nothing_gives_the_empty_string() {
    assert_eq!(join_strings(&Vec::new(), "\n"), "");
}

#[test]
fn joining_one_part_gives_the_part() {
    assert_eq!(join_strings(&vec!["alone".to_string()], "\n"), "alone");
}

#[test]
fn joining_puts_the_separator_between_parts_only() {
    let parts = vec!["a".to_string(), "b".to_string(), "c".to_string()];
    assert_eq!(join_strings(&parts, "\n"), "a\nb\nc");
    assert_eq!(join_strings(&parts, ", "), "a, b, c");
    assert_eq!(join_strings(&parts, ""), "abc");
}

#[test]
fn joining_keeps_empty_parts() {
    let parts = vec!["".to_string(), "x".to_string(), "".to_string()];
    assert_eq!(join_strings(&parts, "-"), "-x-");
}

#[test]
fn joining_agrees_with_std() {
    let parts = vec!["one".to_string(), "two words".to_string(), "".to_string(), "4".to_string()];
    assert_eq!(join_strings(&parts, "\n"), parts.join("\n"));
}
