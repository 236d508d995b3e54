use cli_wrapped::handler::{is_affirmative, log_line_now, make_log_line, should_log_command};
use cli_wrapped::record::{parse_entry_line, serialize_entry};

#[test]
fn self_exclusion_empty_and_own_prefixes() {
    assert!(!should_log_command(""));
    assert!(!should_log_command("   \t  "));
    assert!(!should_log_command("cli-wrapped display"));
    assert!(!should_log_command("  cli-wrapped clear"));
    assert!(!should_log_command("code ."));
    assert!(!should_log_command("  code src/main.rs"));
    assert!(should_log_command("git status"));
    assert!(should_log_command("  git status  "));
}

#[test]
fn excluded_commands_write_no_record() {
    assert_eq!(make_log_line("", "2024-01-01T00:00:00+00:00"), None);
    assert_eq!(make_log_line("   ", "2024-01-01T00:00:00+00:00"), None);
    assert_eq!(make_log_line("cli-wrapped log x", "2024-01-01T00:00:00+00:00"), None);
    assert_eq!(make_log_line("code .", "2024-01-01T00:00:00+00:00"), None);
    assert_eq!(log_line_now(""), None);
    assert_eq!(log_line_now("code ."), None);
}

#[test]
fn serialize_is_one_json_object_per_line() {
    let line = serialize_entry("git status", "2024-05-06T07:08:09+00:00");
    assert_eq!(
        line,
        "{\"command\":\"git status\",\"timestamp\":\"2024-05-06T07:08:09+00:00\"}"
    );
}

#[test]
fn serialize_escapes_like_json() {
    let line = serialize_entry("echo \"a\\b\"\n", "t");
    assert_eq!(
        line,
        "{\"command\":\"echo \\\"a\\\\b\\\"\\n\",\"timestamp\":\"t\"}"
    );
    let parsed = serde_json::from_str::<serde_json::Value>(&line).expect("line is valid JSON");
    assert_eq!(
        parsed.get("command").and_then(|v| v.as_str()),
        Some("echo \"a\\b\"\n")
    );
    assert_eq!(parsed.get("timestamp").and_then(|v| v.as_str()), Some("t"));
}

#[test]
fn parse_inverts_serialize() {
    let cases = [
        ("git status", "2024-05-06T07:08:09+00:00"),
        ("echo \"hi\"", "t1"),
        ("printf '%s\\n' x", "t2"),
        ("tab\there", "t3"),
        ("control\u{1}char", "t4"),
        ("unicode αβ🦀", "t5"),
    ];
    for (cmd, ts) in cases {
        let line = serialize_entry(cmd, ts);
        let entry = parse_entry_line(&line).expect("round trip parses");
        assert_eq!(entry.command, cmd);
        assert_eq!(entry.timestamp, ts);
    }
}

#[test]
fn garbage_lines_parse_to_nothing() {
    assert!(parse_entry_line("").is_none());
    assert!(parse_entry_line("not json at all").is_none());
    assert!(parse_entry_line("{\"command\":\"x\"}").is_none());
    assert!(parse_entry_line("{\"command\":\"x\",\"timestamp\":\"y\"").is_none());
    assert!(parse_entry_line("{\"command\":\"x\",\"timestamp\":\"y\"}trailing").is_none());
    assert!(parse_entry_line("{\"timestamp\":\"y\",\"command\":\"x\"}").is_none());
}

#[test]
fn logged_line_carries_the_command() {
    let line = log_line_now("git status").expect("plain command is logged");
    let entry = parse_entry_line(&line).expect("logged line parses");
    assert_eq!(entry.command, "git status");
    assert!(!entry.timestamp.is_empty());
}

#[test]
fn affirmative_answers_to_the_clear_prompt() {
    assert!(is_affirmative("y"));
    assert!(is_affirmative("Y"));
    assert!(is_affirmative("  y \n"));
    assert!(!is_affirmative("n"));
    assert!(!is_affirmative(""));
    assert!(!is_affirmative("yes"));
    assert!(!is_affirmative("why"));
}

#[test]
fn parse_accepts_unicode_escapes() {
    let entry = parse_entry_line("{\"command\":\"a\\u0041\\u004a\",\"timestamp\":\"t\"}")
        .expect("unicode escapes parse");
    assert_eq!(entry.command, "aAJ");
    let entry = parse_entry_line("{\"command\":\"x\\u0009y\",\"timestamp\":\"t\"}")
        .expect("tab escape parses");
    assert_eq!(entry.command, "x\ty");
}

#[test]
fn parse_rejects_surrogate_escapes() {
    assert!(parse_entry_line("{\"command\":\"\\ud800\",\"timestamp\":\"t\"}").is_none());
    assert!(parse_entry_line("{\"command\":\"\\uq000\",\"timestamp\":\"t\"}").is_none());
}

#[test]
fn control_characters_round_trip() {
    let line = serialize_entry("bell\u{7}end", "t");
    assert_eq!(line, "{\"command\":\"bell\\u0007end\",\"timestamp\":\"t\"}");
    let entry = parse_entry_line(&line).expect("control characters parse back");
    assert_eq!(entry.command, "bell\u{7}end");
}

#[test]
fn unicode_whitespace_commands_are_excluded() {
    // every character of the Unicode White_Space set trims away
    assert!(!should_log_command("\u{b}"));
    assert!(!should_log_command("\u{c}"));
    assert!(!should_log_command("\u{85}\u{a0}\u{1680}"));
    assert!(!should_log_command("\u{2000}\u{2005}\u{200a}"));
    assert!(!should_log_command("\u{2028}\u{2029}\u{202f}\u{205f}\u{3000}"));
    assert_eq!(make_log_line("\u{b}", "t"), None);
    assert!(!should_log_command("\u{a0}cli-wrapped display"));
}

#[test]
fn affirmative_survives_unicode_padding() {
    assert!(is_affirmative("\u{2028}y\u{3000}"));
    assert!(!is_affirmative("\u{a0}\u{a0}"));
}
