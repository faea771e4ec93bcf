use billionprimes::command::{
    parse_positive_u64, parse_u64, Command, CommandError, CommandMode, IntErrorKind,
    DEFAULT_TARGET,
};

fn args(list: &[&str]) -> Vec<String> {
    list.iter().map(|s| s.to_string()).collect()
}

#[test]
fn parses_commands() {
    assert_eq!(Command::from_args(&[]).unwrap(), Command::Nth(DEFAULT_TARGET));
    assert_eq!(
        Command::from_args(&["--target=25".to_string()]).unwrap(),
        Command::Nth(25)
    );
    assert_eq!(
        Command::from_args(&["--count=100".to_string()]).unwrap(),
        Command::Count(100)
    );
    assert_eq!(
        Command::from_args(&["--mode=count".to_string(), "--x=100".to_string()]).unwrap(),
        Command::Count(100)
    );
    assert_eq!(
        Command::from_args(&["--x=100".to_string(), "--mode=count".to_string()]).unwrap(),
        Command::Count(100)
    );
}

#[test]
fn count_mode_without_value_counts_up_to_target() {
    assert_eq!(
        Command::from_args(&args(&["--target=77", "--mode=pi"])).unwrap(),
        Command::Count(77)
    );
    assert_eq!(
        Command::from_args(&args(&["--mode=count"])).unwrap(),
        Command::Count(DEFAULT_TARGET)
    );
}

#[test]
fn later_mode_wins() {
    assert_eq!(
        Command::from_args(&args(&["--count=5", "--mode=nth", "--target=9"])).unwrap(),
        Command::Nth(9)
    );
    assert_eq!(
        Command::from_args(&args(&["--count=5", "--target=9"])).unwrap(),
        Command::Count(5)
    );
}

#[test]
fn help_is_refused() {
    assert_eq!(Command::from_args(&args(&["-h"])), Err(CommandError::Help));
    assert_eq!(
        Command::from_args(&args(&["--target=3", "--help"])),
        Err(CommandError::Help)
    );
}

#[test]
fn refuses_bad_arguments() {
    assert_eq!(
        Command::from_args(&args(&["--target"])),
        Err(CommandError::UnexpectedArgument("--target".to_string()))
    );
    assert_eq!(
        Command::from_args(&args(&["--limit=3"])),
        Err(CommandError::UnknownOption("--limit".to_string()))
    );
    assert_eq!(
        Command::from_args(&args(&["--target=0"])),
        Err(CommandError::NotPositive("--target".to_string()))
    );
    assert_eq!(
        Command::from_args(&args(&["--count=12a"])),
        Err(CommandError::InvalidValue(
            "--count".to_string(),
            IntErrorKind::InvalidDigit
        ))
    );
    assert_eq!(
        Command::from_args(&args(&["--mode=fast"])),
        Err(CommandError::InvalidMode("fast".to_string()))
    );
}

#[test]
fn parses_modes() {
    assert_eq!(CommandMode::parse("count"), Ok(CommandMode::Count));
    assert_eq!(CommandMode::parse("pi"), Ok(CommandMode::Count));
    assert_eq!(CommandMode::parse("invert"), Ok(CommandMode::Nth));
    assert_eq!(CommandMode::parse("nth"), Ok(CommandMode::Nth));
    assert_eq!(CommandMode::parse("nth-pi"), Ok(CommandMode::Nth));
    assert_eq!(
        CommandMode::parse("Count"),
        Err(CommandError::InvalidMode("Count".to_string()))
    );
}

#[test]
fn parses_decimal_numbers_like_std() {
    assert_eq!(parse_u64("0"), Ok(0));
    assert_eq!(parse_u64("+42"), Ok(42));
    assert_eq!(parse_u64("18446744073709551615"), Ok(u64::MAX));
    assert_eq!(parse_u64(""), Err(IntErrorKind::Empty));
    assert_eq!(parse_u64("+"), Err(IntErrorKind::InvalidDigit));
    assert_eq!(parse_u64("-1"), Err(IntErrorKind::InvalidDigit));
    assert_eq!(parse_u64(" 1"), Err(IntErrorKind::InvalidDigit));
    assert_eq!(parse_u64("18446744073709551616"), Err(IntErrorKind::PosOverflow));
    assert_eq!(parse_u64("99999999999999999999x"), Err(IntErrorKind::PosOverflow));
    assert_eq!(parse_u64("9x9999999999999999999"), Err(IntErrorKind::InvalidDigit));
    for text in ["7", "+7", "", "+", "12a", "18446744073709551616", "0042"] {
        let ours = parse_u64(text);
        let std = text.parse::<u64>();
        assert_eq!(ours.is_ok(), std.is_ok(), "{text}");
        if let (Ok(a), Ok(b)) = (ours, std) {
            assert_eq!(a, b);
        }
    }
}

#[test]
fn positive_values_only() {
    assert_eq!(parse_positive_u64("--x", "5"), Ok(5));
    assert_eq!(
        parse_positive_u64("--x", "0"),
        Err(CommandError::NotPositive("--x".to_string()))
    );
    assert_eq!(
        parse_positive_u64("--x", ""),
        Err(CommandError::InvalidValue("--x".to_string(), IntErrorKind::Empty))
    );
}

#[test]
fn last_values_win_and_first_refusal_is_reported() {
    assert_eq!(
        Command::from_args(&args(&["--target=3", "--target=8", "--x=4", "--count=6"])).unwrap(),
        Command::Count(6)
    );
    assert_eq!(
        Command::from_args(&args(&["--count=6", "--mode=nth", "--target=3", "--target=8"])).unwrap(),
        Command::Nth(8)
    );
    assert_eq!(
        Command::from_args(&args(&["--target=0", "--mode=fast", "extra"])),
        Err(CommandError::NotPositive("--target".to_string()))
    );
    assert_eq!(
        Command::from_args(&args(&["--target=5", "extra", "--mode=fast"])),
        Err(CommandError::UnexpectedArgument("extra".to_string()))
    );
}
