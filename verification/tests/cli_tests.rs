use wrk::cli::{
    is_known_command, is_root_help, is_root_version, message_from_lines, message_from_parts,
    message_from_stdin, should_parse_command,
};

fn args(items: &[&str]) -> Vec<String> {
    items.iter().map(|s| s.to_string()).collect()
}

#[test]
fn parses_known_subcommands_before_log_mode() {
    assert!(should_parse_command(&args(&["day"])));
    assert!(should_parse_command(&args(&["--log-dir", "/tmp/logs", "week"])));
}

#[test]
fn logging_flags_force_default_log_mode() {
    assert!(!should_parse_command(&args(&["-p", "api", "day"])));
    assert!(!should_parse_command(&args(&["--", "day"])));
}

#[test]
fn detects_root_help() {
    assert!(is_root_help(&args(&["--help"])));
    assert!(!is_root_help(&args(&["day", "--help"])));
}

#[test]
fn detects_root_version() {
    assert!(is_root_version(&args(&["--version"])));
    assert!(!is_root_version(&args(&["day", "--version"])));
}

#[test]
fn short_help_and_version_flags_are_detected() {
    assert!(is_root_help(&args(&["-h"])));
    assert!(is_root_version(&args(&["-V"])));
    assert!(!is_root_help(&args(&[])));
    assert!(!is_root_version(&args(&["--help"])));
}

#[test]
fn plain_messages_stay_in_log_mode() {
    assert!(!should_parse_command(&args(&["Shipped", "the", "release"])));
    assert!(!should_parse_command(&args(&[])));
    assert!(!should_parse_command(&args(&["--type=build", "day"])));
    assert!(should_parse_command(&args(&["--config=/tmp/rc", "doctor"])));
    assert!(should_parse_command(&args(&["--config", "day", "month"])));
    assert!(!should_parse_command(&args(&["-t", "build"])));
}

#[test]
fn known_commands_are_exactly_the_subcommands() {
    for name in ["day", "week", "month", "year", "search", "project", "edit", "amend", "doctor", "emoji"] {
        assert!(is_known_command(name));
    }
    assert!(!is_known_command("log"));
    assert!(!is_known_command("Day"));
}

#[test]
fn message_words_are_joined_by_spaces() {
    assert_eq!(message_from_parts(&args(&["Shipped", "the", "release"])), Some("Shipped the release".to_string()));
    assert_eq!(message_from_parts(&args(&[])), None);
}

#[test]
fn piped_message_loses_final_line_breaks() {
    assert_eq!(message_from_stdin("Built release\nNeed docs\r\n\n"), Some("Built release\nNeed docs".to_string()));
    assert_eq!(message_from_stdin("\n\r\n"), None);
}

#[test]
fn typed_lines_are_joined_unless_all_blank() {
    assert_eq!(message_from_lines(&args(&["first", "  second"])), Some("first\n  second".to_string()));
    assert_eq!(message_from_lines(&args(&["  ", ""])), None);
    assert_eq!(message_from_lines(&args(&[])), None);
}
