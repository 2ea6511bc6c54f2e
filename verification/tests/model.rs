use my_basic_cli_tools::{ArgumentCount, CommandError, CommandType};

#[test]
fn exact_accepts_only_its_count() {
    let rule = ArgumentCount::Exact(2);
    assert!(!rule.is_valid(0));
    assert!(!rule.is_valid(1));
    assert!(rule.is_valid(2));
    assert!(!rule.is_valid(3));
    assert!(ArgumentCount::Exact(0).is_valid(0));
    assert!(!ArgumentCount::Exact(0).is_valid(1));
}

#[test]
fn at_least_accepts_its_bound_and_more() {
    let rule = ArgumentCount::AtLeast(1);
    assert!(!rule.is_valid(0));
    assert!(rule.is_valid(1));
    assert!(rule.is_valid(2));
    assert!(rule.is_valid(usize::MAX));
    assert!(ArgumentCount::AtLeast(0).is_valid(0));
}

#[test]
fn at_most_accepts_its_bound_and_less() {
    let rule = ArgumentCount::AtMost(3);
    assert!(rule.is_valid(0));
    assert!(rule.is_valid(3));
    assert!(!rule.is_valid(4));
    assert!(!rule.is_valid(usize::MAX));
}

#[test]
fn range_accepts_both_of_its_bounds() {
    let rule = ArgumentCount::Range(2, 4);
    assert!(!rule.is_valid(1));
    assert!(rule.is_valid(2));
    assert!(rule.is_valid(3));
    assert!(rule.is_valid(4));
    assert!(!rule.is_valid(5));
}

#[test]
fn range_with_crossed_bounds_accepts_nothing() {
    let rule = ArgumentCount::Range(4, 2);
    for count in 0..7 {
        assert!(!rule.is_valid(count));
    }
}

#[test]
fn constraints_render_for_messages() {
    assert_eq!(ArgumentCount::Exact(0).to_string(), "exactly 0");
    assert_eq!(ArgumentCount::Exact(12).to_string(), "exactly 12");
    assert_eq!(ArgumentCount::AtLeast(1).to_string(), "at least 1");
    assert_eq!(ArgumentCount::AtMost(3).to_string(), "up to 3");
    assert_eq!(ArgumentCount::Range(2, 5).to_string(), "2-5");
    assert_eq!(ArgumentCount::Range(10, 200).to_string(), "10-200");
}

#[test]
fn unknown_command_message_names_the_command() {
    let error = CommandError::UnknownCommand("frobnicate".to_string());
    assert_eq!(error.to_string(), "Unknown command: frobnicate");
    assert_eq!(CommandError::UnknownCommand(String::new()).to_string(), "Unknown command: ");
}

#[test]
fn unsupported_flag_message_names_the_flag() {
    let error = CommandError::UnsupportedFlag("-z".to_string());
    assert_eq!(error.to_string(), "Unsupported flag: -z");
}

#[test]
fn wrong_count_message_gives_constraint_and_count() {
    let error = CommandError::WrongArgumentsCount { expected: ArgumentCount::Exact(0), actual: 1 };
    assert_eq!(error.to_string(), "Wrong number of arguments: expected exactly 0, got 1");
    let error = CommandError::WrongArgumentsCount { expected: ArgumentCount::AtLeast(1), actual: 0 };
    assert_eq!(error.to_string(), "Wrong number of arguments: expected at least 1, got 0");
    let error = CommandError::WrongArgumentsCount { expected: ArgumentCount::AtMost(2), actual: 17 };
    assert_eq!(error.to_string(), "Wrong number of arguments: expected up to 2, got 17");
    let error = CommandError::WrongArgumentsCount { expected: ArgumentCount::Range(1, 3), actual: 4 };
    assert_eq!(error.to_string(), "Wrong number of arguments: expected 1-3, got 4");
}

#[test]
fn names_resolve_to_their_kinds() {
    assert_eq!(CommandType::try_from("echo".to_string()), Ok(CommandType::Echo));
    assert_eq!(CommandType::try_from("exit".to_string()), Ok(CommandType::Exit));
    assert_eq!(CommandType::try_from("help".to_string()), Ok(CommandType::Help));
    assert_eq!(CommandType::try_from("ls".to_string()), Ok(CommandType::Ls));
}

#[test]
fn names_match_exactly_and_by_case() {
    for name in ["", "Echo", "ECHO", "ech", "echoo", " echo", "echo ", "l", "lss", "list", "quit", "-"] {
        assert_eq!(
            CommandType::try_from(name.to_string()),
            Err(CommandError::UnknownCommand(name.to_string()))
        );
    }
}

#[test]
fn kinds_resolve_through_try_into_as_well() {
    let kind: Result<CommandType, CommandError> = "help".to_string().try_into();
    assert_eq!(kind, Ok(CommandType::Help));
}

#[test]
fn no_kind_accepts_a_flag() {
    for kind in [CommandType::Echo, CommandType::Exit, CommandType::Help, CommandType::Ls] {
        assert!(kind.get_supported_flags().is_empty());
        for flag in ["-u", "-z", "-", "--all", "", "u"] {
            assert!(!kind.is_supported_flag(flag));
        }
    }
}

#[test]
fn each_kind_has_its_argument_rule() {
    assert_eq!(CommandType::Echo.get_expected_argument_count(), Some(ArgumentCount::AtLeast(1)));
    assert_eq!(CommandType::Exit.get_expected_argument_count(), Some(ArgumentCount::Exact(0)));
    assert_eq!(CommandType::Help.get_expected_argument_count(), Some(ArgumentCount::Exact(0)));
    assert_eq!(CommandType::Ls.get_expected_argument_count(), None);
}
