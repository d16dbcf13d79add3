use diredit::command::{parse_commands, parse_line, split_first_word, line_slices_cleanly, Command};
use diredit::datetime::{parse_datetime, timegm_exec};

fn lines(text: &[&str]) -> Vec<String> {
    text.iter().map(|s| s.to_string()).collect()
}

#[test]
fn ignores_comments() {
    let lines = vec!["# abc123".to_string()];
    let parsed = parse_commands(&lines);
    assert!(parsed.is_empty());
}

#[test]
fn ignores_blank_lines() {
    let lines = vec!["".to_string()];
    let parsed = parse_commands(&lines);
    assert!(parsed.is_empty());
}

#[test]
fn creates_delete_commands_for_inode_only() {
    let lines = vec!["abc123".to_string()];
    let parsed = parse_commands(&lines);
    assert!(parsed.contains_key("abc123"));
    assert!(matches!(parsed.get("abc123").unwrap(), Command::Delete { .. }));
}

#[test]
fn creates_update_commands_for_well_formed_input() {
    let lines = vec![
        "abc123 100644 user group 2014-04-30T10:11:12+01:00 /tmp/example.txt".to_string(),
    ];
    let parsed = parse_commands(&lines);
    assert!(parsed.contains_key("abc123"));
    assert!(matches!(parsed.get("abc123").unwrap(), Command::Update { .. }));
}

#[test]
fn parses_update_command_fields() {
    let lines = vec![
        "abc123 100644 user group 2014-04-30T10:11:12+01:00 /tmp/example.txt".to_string(),
    ];
    let parsed = parse_commands(&lines);
    match parsed.get("abc123").unwrap() {
        Command::Update { mode, user, group, filename, .. } => {
            assert_eq!(*mode, 0o100644);
            assert_eq!(user, "user");
            assert_eq!(group, "group");
            assert_eq!(filename, "/tmp/example.txt");
        }
        _ => panic!("expected Update command"),
    }
}

#[test]
fn handles_extra_whitespace() {
    let lines = vec![
        "  abc123  100644  user  group  2014-04-30T10:11:12+01:00   /tmp/example.txt "
            .to_string(),
    ];
    let parsed = parse_commands(&lines);
    assert!(parsed.contains_key("abc123"));
    match parsed.get("abc123").unwrap() {
        Command::Update { user, group, filename, .. } => {
            assert_eq!(user, "user");
            assert_eq!(group, "group");
            assert_eq!(filename, "/tmp/example.txt");
        }
        _ => panic!("expected Update command"),
    }
}

#[test]
fn parse_datetime_roundtrip() {
    let dt = "2014-04-30T10:11:12+01:00";
    assert!(parse_datetime(dt).is_some());
}

#[test]
fn parse_datetime_negative_offset() {
    let dt = "2014-04-30T10:11:12-05:00";
    assert!(parse_datetime(dt).is_some());
}

#[test]
fn parse_datetime_exact_instants() {
    assert_eq!(parse_datetime("2014-04-30T10:11:12+01:00"), Some(1398849072));
    assert_eq!(parse_datetime("2014-04-30T10:11:12-05:00"), Some(1398870672));
    assert_eq!(parse_datetime("2000-03-01T00:00:00+00:00"), Some(951868800));
    assert_eq!(parse_datetime("1970-01-01T00:00:00+00:00"), Some(0));
}

#[test]
fn parse_datetime_ignores_separators_and_normalises_months() {
    // The separators are never looked at.
    assert_eq!(parse_datetime("2014x04y30z10:11:12+01:00"), Some(1398849072));
    // Month 14 of 2014 is February 2015.
    assert_eq!(parse_datetime("2014-14-01T00:00:00+00:00"), Some(1422748800));
    // Fields may carry a sign.
    assert_eq!(parse_datetime("2014-+4-30T10:11:12+01:00"), Some(1398849072));
}

#[test]
fn parse_datetime_rejections() {
    // Too short.
    assert_eq!(parse_datetime("2014-04-30T10:11:12+01:0"), None);
    // Not a number.
    assert_eq!(parse_datetime("20a4-04-30T10:11:12+01:00"), None);
    // Offset sign must be + or -.
    assert_eq!(parse_datetime("2014-04-30T10:11:12Z01:00"), None);
    // Before the epoch.
    assert_eq!(parse_datetime("1969-12-31T23:00:00+00:00"), None);
    // One second before the epoch is the value timegm reserves for failure.
    assert_eq!(parse_datetime("1969-12-31T23:59:59+00:00"), None);
}

#[test]
fn timegm_matches_the_calendar() {
    assert_eq!(timegm_exec(1970, 0, 1, 0, 0, 0), 0);
    assert_eq!(timegm_exec(1969, 11, 31, 23, 59, 59), -1);
    assert_eq!(timegm_exec(2000, 2, 1, 0, 0, 0), 951868800);
    assert_eq!(timegm_exec(2014, 3, 30, 10, 11, 12), 1398852672);
    // Day 0 is the last day of the previous month; leap day of 2000.
    assert_eq!(timegm_exec(2000, 2, 0, 0, 0, 0), 951868800 - 86400);
    // Negative months carry into earlier years.
    assert_eq!(timegm_exec(2015, -11, 1, 0, 0, 0), timegm_exec(2014, 1, 1, 0, 0, 0));
}

#[test]
fn inode_only_line_with_surrounding_whitespace_deletes() {
    let parsed = parse_line("  00ffAB \t ").unwrap();
    assert_eq!(parsed.0, "00ffAB");
    assert!(matches!(parsed.1, Command::Delete));
}

#[test]
fn lines_not_starting_with_an_inode_are_skipped() {
    assert!(parse_line("xyz 100644 u g 2014-04-30T10:11:12+01:00 f").is_none());
    assert!(parse_line("   # comment").is_none());
    assert!(parse_line(" \t ").is_none());
}

#[test]
fn malformed_updates_are_skipped() {
    // Mode with a non-octal digit.
    assert!(parse_line("ab 100648 u g 2014-04-30T10:11:12+01:00 f").is_none());
    // Mode that is not all digits.
    assert!(parse_line("ab +10064 u g 2014-04-30T10:11:12+01:00 f").is_none());
    // Mode beyond u32.
    assert!(parse_line("ab 777777777777 u g 2014-04-30T10:11:12+01:00 f").is_none());
    // No file name.
    assert!(parse_line("ab 100644 u g 2014-04-30T10:11:12+01:00   ").is_none());
    // Missing group.
    assert!(parse_line("ab 100644 u").is_none());
    // Time too short.
    assert!(parse_line("ab 100644 u g 2014-04-30").is_none());
}

#[test]
fn file_names_keep_inner_spaces_and_unicode() {
    let (inode, cmd) = parse_line("ab 644 u g 2014-04-30T10:11:12+01:00  my fïle.txt ").unwrap();
    assert_eq!(inode, "ab");
    match cmd {
        Command::Update { mode, filename, datetime, mtime, .. } => {
            assert_eq!(mode, 0o644);
            assert_eq!(filename, "my fïle.txt");
            assert_eq!(datetime, "2014-04-30T10:11:12+01:00");
            assert_eq!(mtime, 1398849072);
        }
        _ => panic!("expected Update command"),
    }
}

#[test]
fn byte_offsets_inside_a_character_are_detected() {
    // The 25th byte after the group falls inside 'é'.
    assert!(!line_slices_cleanly("ab 644 u g 2014-04-30T10:11:12+01:0é f"));
    // The sign of the offset would be sliced out of the middle of 'é'.
    assert!(!line_slices_cleanly("ab 644 u g 2014-04-30T10:11:12é1:00 f"));
    // A character boundary exactly at byte 25 is fine, though the time is then invalid.
    assert!(line_slices_cleanly("ab 644 u g 2014-04-30T10:11:12+01:é0 f"));
    assert!(parse_line("ab 644 u g 2014-04-30T10:11:12+01:é0 f").is_none());
    assert!(line_slices_cleanly("ab 644 u g 2014-04-30T10:11:12+01:00 é"));
    assert!(line_slices_cleanly("# anything é"));
}

#[test]
fn later_lines_replace_earlier_commands_for_the_same_inode() {
    let parsed = parse_commands(&lines(&[
        "ab",
        "cd 644 u g 2014-04-30T10:11:12+01:00 f",
        "ab 600 u g 2014-04-30T10:11:12+01:00 g",
    ]));
    assert_eq!(parsed.len(), 2);
    match parsed.get("ab").unwrap() {
        Command::Update { mode, filename, .. } => {
            assert_eq!(*mode, 0o600);
            assert_eq!(filename, "g");
        }
        _ => panic!("expected Update command"),
    }
    assert!(!parsed.contains_key("AB"));
}

#[test]
fn split_first_word_trims_leading_whitespace() {
    assert_eq!(split_first_word("  one  two three"), Some(("one", "two three")));
    assert_eq!(split_first_word("word"), Some(("word", "")));
    assert_eq!(split_first_word("   "), None);
}

#[test]
fn each_inode_keeps_the_command_of_its_last_line() {
    let parsed = parse_commands(&lines(&[
        "ab 644 u g 2014-04-30T10:11:12+01:00 first",
        "# ab 600 u g 2014-04-30T10:11:12+01:00 commented",
        "cd",
        "ab 600 u g 2014-04-30T10:11:12+01:00 second",
        "not a command",
        "cd 755 u g 2014-04-30T10:11:12+01:00 kept",
        "ab",
    ]));
    assert_eq!(parsed.len(), 2);
    assert!(matches!(parsed.get("ab"), Some(Command::Delete)));
    match parsed.get("cd").unwrap() {
        Command::Update { mode, filename, .. } => {
            assert_eq!(*mode, 0o755);
            assert_eq!(filename, "kept");
        }
        _ => panic!("expected Update command"),
    }
    assert!(!parsed.contains_key("not"));
}
