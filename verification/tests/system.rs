use just::system::{cmd_read_silent, cmd_run, cmd_run_silent, split_words, Cmd, WinPath};

#[test]
fn cmd_parse_empty() {
    let cmd = Cmd::parse("");
    assert!(cmd.is_none());
}

#[test]
fn cmd_parse_with_argument() {
    let cmd = Cmd::parse("curl foo");
    assert!(cmd.is_some());
    let cmd = cmd.unwrap();
    assert_eq!("curl", &cmd.exe);
    assert_eq!(&["foo"], &cmd.args[..]);
}

#[test]
fn cmd_parse_without_argument() {
    let cmd = Cmd::parse("curl");
    assert!(cmd.is_some());
    let cmd = cmd.unwrap();
    assert_eq!("curl", &cmd.exe);
    assert!(cmd.args.is_empty());
}

#[test]
fn cmd_parse_only_whitespace() {
    assert!(Cmd::parse("  \t \n ").is_none());
}

#[test]
fn cmd_parse_runs_of_whitespace() {
    let cmd = Cmd::parse("  tool\t--flag   value\n").unwrap();
    assert_eq!(cmd.exe, "tool");
    assert_eq!(cmd.args, vec!["--flag".to_string(), "value".to_string()]);
}

#[test]
fn split_words_agrees_with_std() {
    for line in ["", " ", "a", " a", "a ", "a b", "a  b\tc", "\u{3000}x\u{a0}y z\u{2003}", "é ü"] {
        let expected: Vec<String> = line.split_whitespace().map(|w| w.to_string()).collect();
        assert_eq!(split_words(line), expected);
    }
}

#[test]
fn cmd_run_is_silent_and_reads_nothing() {
    let cmd = Cmd::parse("git --version").unwrap();
    let call = cmd.run();
    assert_eq!(call.exe, "git");
    assert_eq!(call.args, vec!["--version".to_string()]);
    assert!(call.silent);
    assert!(!call.read);
}

#[test]
fn cmd_read_is_silent_and_reads() {
    let cmd = Cmd::parse("git --version").unwrap();
    let call = cmd.read();
    assert_eq!(call.exe, "git");
    assert_eq!(call.args, vec!["--version".to_string()]);
    assert!(call.silent);
    assert!(call.read);
}

#[test]
fn the_three_ways_to_run() {
    let args = vec!["x".to_string()];
    let shown = cmd_run("a", &args);
    assert!(!shown.silent && !shown.read);
    let silent = cmd_run_silent("a", &args);
    assert!(silent.silent && !silent.read);
    let read = cmd_read_silent("a", &args);
    assert!(read.silent && read.read);
    assert_eq!(read.exe, "a");
    assert_eq!(read.args, args);
}

#[test]
fn win_path_contains_what_was_appended() {
    let mut path = WinPath::new(vec!["/usr/bin".to_string()]);
    assert!(path.contains("/usr/bin"));
    assert!(!path.contains("/opt/just/bin"));
    path.append("/opt/just/bin");
    assert!(path.contains("/opt/just/bin"));
    assert_eq!(path.current(), &vec!["/usr/bin".to_string(), "/opt/just/bin".to_string()]);
}

#[test]
fn win_path_compares_paths_not_texts() {
    let path = WinPath::new(vec!["/opt/just/bin/".to_string()]);
    assert!(path.contains("/opt/just/bin"));
    assert!(!path.contains("/opt/just"));
}

#[test]
fn win_path_remove_takes_the_first_match_only() {
    let mut path = WinPath::new(vec![
        "/a".to_string(),
        "/b".to_string(),
        "/a".to_string(),
    ]);
    path.remove("/a");
    assert_eq!(path.current(), &vec!["/b".to_string(), "/a".to_string()]);
}

#[test]
fn win_path_remove_of_an_absent_path_changes_nothing() {
    let mut path = WinPath::new(vec!["/a".to_string(), "/b".to_string()]);
    path.remove("/c");
    assert_eq!(path.current(), &vec!["/a".to_string(), "/b".to_string()]);
}

#[test]
fn win_path_joined_puts_semicolons_between() {
    assert_eq!(WinPath::new(vec![]).joined(), "");
    assert_eq!(WinPath::new(vec!["a".to_string()]).joined(), "a");
    assert_eq!(
        WinPath::new(vec!["a".to_string(), "b".to_string(), "c".to_string()]).joined(),
        "a;b;c"
    );
}

#[test]
fn win_path_save_runs_setx() {
    let path = WinPath::new(vec!["C:\\a".to_string(), "C:\\b".to_string()]);
    let call = path.save();
    assert_eq!(call.exe, "setx");
    assert_eq!(call.args, vec!["PATH".to_string(), "C:\\a;C:\\b".to_string()]);
    assert!(call.silent);
    assert!(!call.read);
}

#[test]
fn whitespace_is_what_unicode_lists() {
    let listed = |c: char| {
        let n = c as u32;
        (0x09..=0x0D).contains(&n)
            || (0x2000..=0x200A).contains(&n)
            || [0x20, 0x85, 0xA0, 0x1680, 0x2028, 0x2029, 0x202F, 0x205F, 0x3000].contains(&n)
    };
    let mut text = String::new();
    for n in 0..=0x10FFFF_u32 {
        if let Some(c) = char::from_u32(n) {
            text.clear();
            text.push(c);
            assert_eq!(split_words(&text).is_empty(), listed(c), "U+{:04X}", n);
        }
    }
}
