use diredit::command::{parse_commands, Command};
use diredit::datetime::{format_mtime, format_touch_time, BrokenDownTime};
use diredit::listing::{Directories, FileInfo, FileList};
use diredit::options::{parse_args, Invocation, Mode};
use diredit::plan::Operation;

fn time(gmtoff: i64) -> BrokenDownTime {
    BrokenDownTime {
        tm_year: 114,
        tm_mon: 3,
        tm_mday: 30,
        tm_hour: 10,
        tm_min: 11,
        tm_sec: 12,
        tm_gmtoff: gmtoff,
    }
}

fn file(ino: u64, mode: u32, path: &str) -> FileInfo {
    FileInfo::new(
        ino,
        mode,
        1000,
        1000,
        path.to_string(),
        Some("user".to_string()),
        Some("group".to_string()),
        time(3600),
    )
}

fn split(text: &str) -> Vec<String> {
    text.lines().map(String::from).collect()
}

#[test]
fn file_list_produces_parseable_output() {
    let fl = FileList::list(
        "/tmp/diredit-test-roundtrip",
        vec![file(0x1234, 0o100644, "/tmp/diredit-test-roundtrip/testfile.txt")],
    );
    let output = fl.to_string();
    let lines: Vec<String> = output.lines().map(String::from).collect();
    let commands = parse_commands(&lines);

    assert!(!commands.is_empty());
}

#[test]
fn directories_to_string_with_verbose() {
    let fl = FileList::list(
        "/tmp/diredit-test-verbose",
        vec![file(0x99, 0o100644, "/tmp/diredit-test-verbose/vtest.txt")],
    );
    let dirs = Directories::list(vec![fl], true);
    let output = dirs.to_string();
    assert!(output.contains("# Path:"));
}

#[test]
fn mtime_is_written_with_its_utc_offset() {
    assert_eq!(format_mtime(&time(3600)), "2014-04-30T10:11:12+01:00");
    assert_eq!(format_mtime(&time(-5 * 3600 - 30 * 60)), "2014-04-30T10:11:12-05:30");
    assert_eq!(format_mtime(&time(0)), "2014-04-30T10:11:12+00:00");
    // Seconds of an offset are dropped.
    assert_eq!(format_mtime(&time(3600 + 59)), "2014-04-30T10:11:12+01:00");
    assert_eq!(format_touch_time(&time(3600)), "201404301011.12");
}

#[test]
fn file_info_fields_as_listed() {
    let f = file(123456789, 0o40755, "./docs");
    assert_eq!(f.inode_hex, "75bcd15");
    assert_eq!(f.filename, "docs");
    assert_eq!(f.mode_octal(), " 40755");
    assert_eq!(f.username(), "user");
    assert_eq!(f.groupname(), "group");
    assert_eq!(f.mtime_string(), "2014-04-30T10:11:12+01:00");
    assert_eq!(f.to_string(), "75bcd15  40755 user group 2014-04-30T10:11:12+01:00 docs");
    let unnamed = FileInfo::new(0, 0, 42, 7, "x".to_string(), None, None, time(0));
    assert_eq!(unnamed.username(), "42");
    assert_eq!(unnamed.groupname(), "7");
    assert_eq!(unnamed.mode_octal(), "     0");
    assert_eq!(unnamed.inode_hex, "0");
}

#[test]
fn listing_text_joins_lines_and_paths() {
    let a = FileList::list("a", vec![file(1, 0o644, "a/x"), file(2, 0o644, "a/y")]);
    let b = FileList::list("b", vec![file(3, 0o600, "b/z")]);
    let dirs = Directories::list(vec![a, b], true);
    assert_eq!(
        dirs.to_string(),
        "# Path: a\n\
         1 000644 user group 2014-04-30T10:11:12+01:00 a/x\n\
         2 000644 user group 2014-04-30T10:11:12+01:00 a/y\n\
         # Path: b\n\
         3 000600 user group 2014-04-30T10:11:12+01:00 b/z"
            .replace("000644", "   644")
            .replace("000600", "   600")
    );
    let plain = Directories::list(vec![FileList::list("c", vec![file(4, 0o644, "c/w")])], false);
    assert_eq!(plain.to_string(), "4    644 user group 2014-04-30T10:11:12+01:00 c/w");
}

#[test]
fn find_returns_the_first_file_with_the_inode() {
    let fl = FileList::list("d", vec![file(10, 0o644, "d/one"), file(10, 0o600, "d/two")]);
    assert_eq!(fl.find("a").unwrap().filename, "d/one");
    assert!(fl.find("b").is_none());
}

#[test]
fn unedited_listing_applies_nothing() {
    let fl = FileList::list("d", vec![file(10, 0o644, "d/one"), file(11, 0o100600, "d/two")]);
    let dirs = Directories::list(vec![fl], false);
    let mut commands = parse_commands(&split(&dirs.to_string()));
    assert_eq!(commands.len(), 2);
    let ops = dirs.apply(&mut commands);
    assert!(ops.is_empty());
    assert!(commands.is_empty());
}

#[test]
fn edited_fields_become_operations_in_order() {
    let fl = FileList::list("d", vec![file(10, 0o644, "d/one")]);
    let dirs = Directories::list(vec![fl], false);
    let mut commands = parse_commands(&split(
        "a 600 root wheel 2015-01-01T00:00:00+00:00 d/renamed\nff 644 u g 2014-04-30T10:11:12+01:00 x",
    ));
    let ops = dirs.apply(&mut commands);
    assert_eq!(ops.len(), 5);
    assert!(matches!(&ops[0], Operation::Chmod { path, mode } if path == "d/one" && *mode == 0o600));
    assert!(matches!(&ops[1], Operation::Touch { path, mtime } if path == "d/one" && *mtime == 1420070400));
    assert!(matches!(&ops[2], Operation::Chown { path, user } if path == "d/one" && user == "root"));
    assert!(matches!(&ops[3], Operation::Chgrp { path, group } if path == "d/one" && group == "wheel"));
    assert!(matches!(&ops[4], Operation::Rename { from, to } if from == "d/one" && to == "d/renamed"));
    // The command for an inode that is not listed stays.
    assert_eq!(commands.len(), 1);
    assert!(commands.contains_key("ff"));
}

#[test]
fn inode_only_line_removes_the_file() {
    let dirs = Directories::list(vec![FileList::list("d", vec![file(10, 0o644, "d/one")])], false);
    let mut commands = parse_commands(&split("a"));
    let ops = dirs.apply(&mut commands);
    assert_eq!(ops.len(), 1);
    assert!(matches!(&ops[0], Operation::Remove { path } if path == "d/one"));
}

#[test]
fn commands_are_matched_in_the_first_listing_holding_the_inode() {
    let a = FileList::list("a", vec![file(5, 0o644, "a/x")]);
    let b = FileList::list("b", vec![file(5, 0o644, "b/x")]);
    let dirs = Directories::list(vec![a, b], false);
    let mut commands = parse_commands(&split("5"));
    let ops = dirs.apply(&mut commands);
    assert_eq!(ops.len(), 1);
    assert!(matches!(&ops[0], Operation::Remove { path } if path == "a/x"));
}

#[test]
fn apply_to_a_file_directly() {
    let f = file(10, 0o644, "d/one");
    let cmd = Command::Update {
        mode: 0o644,
        user: "user".to_string(),
        group: "staff".to_string(),
        datetime: "2014-04-30T10:11:12+01:00".to_string(),
        mtime: 1398849072,
        filename: "d/one".to_string(),
    };
    let ops = cmd.apply_to(&f);
    assert_eq!(ops.len(), 1);
    assert!(matches!(&ops[0], Operation::Chgrp { group, .. } if group == "staff"));
}

fn args(v: &[&str]) -> Vec<String> {
    v.iter().map(|s| s.to_string()).collect()
}

#[test]
fn options_from_the_command_line() {
    match parse_args(&args(&["-v", "-r", "x", "y"]), true, true) {
        Invocation::Run(o) => {
            assert!(o.interactive);
            assert!(o.verbose && o.recursive && !o.has_stdin);
            assert_eq!(o.paths, vec!["x".to_string(), "y".to_string()]);
        }
        _ => panic!("expected options"),
    }
    match parse_args(&args(&["--interactive", "-p"]), false, false) {
        Invocation::Run(o) => {
            assert!(!o.interactive);
            assert!(o.has_stdin);
            // No path: the current directory, recursively when reading commands.
            assert_eq!(o.paths, vec![".".to_string()]);
            assert!(o.recursive);
        }
        _ => panic!("expected options"),
    }
    match parse_args(&args(&[]), true, false) {
        Invocation::Run(o) => {
            assert!(!o.interactive && !o.has_stdin && !o.recursive);
        }
        _ => panic!("expected options"),
    }
    assert!(matches!(parse_args(&args(&["x", "--help", "-z"]), true, true), Invocation::Help));
    match parse_args(&args(&["x", "-z", "--help"]), true, true) {
        Invocation::InvalidOption(a) => assert_eq!(a, "-z"),
        _ => panic!("expected an invalid option"),
    }
    assert!(matches!(parse_args(&args(&["-"]), true, true), Invocation::InvalidOption(_)));
}

#[test]
fn renaming_by_editing_the_listing_text() {
    // diredit ./tmp/ | sed 's/\.txt$/\.md/' | diredit
    let fl = FileList::list("tmp", vec![file(7, 0o100644, "tmp/notes.txt"), file(8, 0o100644, "tmp/a.rs")]);
    let dirs = Directories::list(vec![fl], false);
    let edited: Vec<String> = dirs
        .to_string()
        .lines()
        .map(|l| match l.strip_suffix(".txt") {
            Some(stem) => format!("{stem}.md"),
            None => l.to_string(),
        })
        .collect();
    let mut commands = parse_commands(&edited);
    let ops = dirs.apply(&mut commands);
    assert_eq!(ops.len(), 1);
    assert!(matches!(&ops[0], Operation::Rename { from, to } if from == "tmp/notes.txt" && to == "tmp/notes.md"));
}

#[test]
fn making_files_group_writable_by_editing_the_listing_text() {
    // diredit ./tmp/ | sed 's/ 100644/ 100664/' | diredit
    let fl = FileList::list("tmp", vec![file(7, 0o100644, "tmp/notes.txt"), file(8, 0o40755, "tmp/dir")]);
    let dirs = Directories::list(vec![fl], false);
    let edited: Vec<String> =
        dirs.to_string().lines().map(|l| l.replace(" 100644", " 100664")).collect();
    let mut commands = parse_commands(&edited);
    let ops = dirs.apply(&mut commands);
    assert_eq!(ops.len(), 1);
    assert!(matches!(&ops[0], Operation::Chmod { path, mode } if path == "tmp/notes.txt" && *mode == 0o100664));
}

#[test]
fn written_times_read_back_as_the_instant() {
    for (offset, expected) in [(3600i64, 1398849072u64), (-5 * 3600, 1398870672), (0, 1398852672)] {
        let text = format_mtime(&time(offset));
        assert_eq!(diredit::datetime::parse_datetime(&text), Some(expected));
    }
}

#[test]
fn unicode_file_names_survive_the_listing() {
    let fl = FileList::list("d", vec![file(12, 0o644, "d/ünïcödé name.txt")]);
    let dirs = Directories::list(vec![fl], true);
    let lines = split(&dirs.to_string());
    assert_eq!(lines.len(), 2);
    let mut commands = parse_commands(&lines);
    match commands.get("c").unwrap() {
        Command::Update { filename, .. } => assert_eq!(filename, "d/ünïcödé name.txt"),
        _ => panic!("expected Update command"),
    }
    assert!(dirs.apply(&mut commands).is_empty());
}

#[test]
fn what_a_run_does() {
    match parse_args(&args(&["-v"]), false, true) {
        Invocation::Run(o) => {
            assert!(o.show_paths());
            assert!(matches!(o.mode(), Mode::ApplyStdin));
        }
        _ => panic!("expected options"),
    }
    match parse_args(&args(&["d"]), true, false) {
        Invocation::Run(o) => {
            assert!(!o.show_paths());
            assert!(matches!(o.mode(), Mode::Print));
        }
        _ => panic!("expected options"),
    }
    match parse_args(&args(&["-i"]), false, false) {
        Invocation::Run(o) => {
            assert!(o.show_paths());
            assert!(matches!(o.mode(), Mode::Edit));
        }
        _ => panic!("expected options"),
    }
}

#[test]
fn leftover_commands_apply_nothing_the_second_time() {
    let dirs = Directories::list(vec![FileList::list("d", vec![file(10, 0o644, "d/one")])], false);
    let mut commands = parse_commands(&split("a\nbeef\ncafe 644 u g 2014-04-30T10:11:12+01:00 z"));
    let first = dirs.apply(&mut commands);
    assert_eq!(first.len(), 1);
    assert_eq!(commands.len(), 2);
    let second = dirs.apply(&mut commands);
    assert!(second.is_empty());
    assert_eq!(commands.len(), 2);
    assert!(commands.contains_key("beef") && commands.contains_key("cafe"));
}

#[test]
fn touch_time_is_the_listing_time_without_separators() {
    for t in [time(3600), time(-5 * 3600), BrokenDownTime { tm_year: 70, tm_mon: 0, tm_mday: 1, tm_hour: 0, tm_min: 0, tm_sec: 0, tm_gmtoff: 0 }] {
        let m: Vec<char> = format_mtime(&t).chars().collect();
        let touch = format_touch_time(&t);
        let mut expected = String::new();
        for r in [0..4, 5..7, 8..10, 11..13, 14..16] {
            expected.extend(m[r].iter());
        }
        expected.push('.');
        expected.extend(m[17..19].iter());
        assert_eq!(touch, expected);
    }
    assert_eq!(format_touch_time(&time(3600)), "201404301011.12");
}

#[test]
fn every_listed_file_reads_back_under_its_inode() {
    let files = vec![
        file(0x1234, 0o100644, "./plain.txt"),
        file(0xabc, 0o40755, " leading and trailing spaces "),
        file(0x77, 0o100600, "inner  spaces\tand tab"),
        file(0x5, 0o100600, "ends with a carriage return\r"),
    ];
    let inodes: Vec<String> = files.iter().map(|f| f.inode_hex.clone()).collect();
    let fl = FileList::list("/tmp/diredit-test-names", files);
    let commands = parse_commands(&split(&fl.to_string()));
    assert_eq!(commands.len(), 4);
    for ino in &inodes {
        assert!(commands.contains_key(ino));
    }
    match commands.get("abc").unwrap() {
        Command::Update { filename, mode, .. } => {
            assert_eq!(filename, "leading and trailing spaces");
            assert_eq!(*mode, 0o40755);
        }
        _ => panic!("expected Update command"),
    }
}
