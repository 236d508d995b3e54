use cli_wrapped::formatter::{
    format_count, get_command_invocation_maps, parse_hex_color, record_keys, render_top_n,
    sort_map, tally_log_file, FrequencyTable,
};
use cli_wrapped::handler::make_log_line;
use cli_wrapped::record::serialize_entry;

fn line(cmd: &str) -> String {
    serialize_entry(cmd, "2024-01-01T00:00:00+00:00")
}

fn lookup(t: &FrequencyTable, key: &str) -> Option<usize> {
    t.entries
        .iter()
        .find(|e| e.0 == key)
        .map(|e| e.1)
}

#[test]
fn tally_counts_base_and_invocation() {
    let lines = vec![line("git status"), line("git commit -m x"), line("ls -la")];
    let mut cmd = FrequencyTable::new();
    let mut inv = FrequencyTable::new();
    tally_log_file(&lines, &mut cmd, &mut inv);
    assert_eq!(lookup(&cmd, "git"), Some(2));
    assert_eq!(lookup(&cmd, "ls"), Some(1));
    assert_eq!(lookup(&inv, "git status"), Some(1));
    assert_eq!(lookup(&inv, "git commit -m x"), Some(1));
    assert_eq!(lookup(&inv, "ls -la"), Some(1));
}

#[test]
fn tally_conservation_totals_match_record_count() {
    let lines = vec![
        line("git status"),
        line("ls"),
        line("git push"),
        line("cargo build"),
        line("ls"),
    ];
    let mut cmd = FrequencyTable::new();
    let mut inv = FrequencyTable::new();
    tally_log_file(&lines, &mut cmd, &mut inv);
    assert_eq!(cmd.total(), 5);
    assert_eq!(inv.total(), 5);
}

#[test]
fn corrupt_lines_are_skipped() {
    let lines = vec![
        line("git status"),
        String::from("*** total garbage ###"),
        String::from("{\"command\": 17}"),
    ];
    let mut cmd = FrequencyTable::new();
    let mut inv = FrequencyTable::new();
    tally_log_file(&lines, &mut cmd, &mut inv);
    assert_eq!(cmd.total(), 1);
    assert_eq!(inv.total(), 1);
    assert_eq!(lookup(&cmd, "git"), Some(1));
}

#[test]
fn venv_python_collapses_to_one_key() {
    let keys_a = record_keys("~/.venvA/bin/python.exe script.py").expect("has a token");
    let keys_b = record_keys("~/.venvB/bin/python.exe script.py").expect("has a token");
    assert_eq!(keys_a.0, "python");
    assert_eq!(keys_b.0, "python");
    assert_eq!(keys_a.1, "python script.py");
    assert_eq!(keys_b.1, "python script.py");

    let lines = vec![
        line("~/.venvA/bin/python.exe script.py"),
        line("~/.venvB/bin/python.exe script.py"),
    ];
    let mut cmd = FrequencyTable::new();
    let mut inv = FrequencyTable::new();
    tally_log_file(&lines, &mut cmd, &mut inv);
    assert_eq!(lookup(&cmd, "python"), Some(2));
    assert_eq!(lookup(&inv, "python script.py"), Some(2));
    assert_eq!(cmd.entries.len(), 1);
    assert_eq!(inv.entries.len(), 1);
}

#[test]
fn plain_keys_keep_the_full_text() {
    let keys = record_keys("  git status  ").expect("has a token");
    assert_eq!(keys.0, "git");
    assert_eq!(keys.1, "  git status  ");
    assert_eq!(record_keys("   "), None);
}

#[test]
fn ranking_is_stable_under_ties() {
    let mut t = FrequencyTable::new();
    for _ in 0..5 {
        t.increment(String::from("git"));
    }
    for _ in 0..5 {
        t.increment(String::from("ls"));
    }
    for _ in 0..3 {
        t.increment(String::from("cd"));
    }
    let ranked = sort_map(t);
    let names: Vec<&str> = ranked.iter().map(|e| e.0.as_str()).collect();
    let counts: Vec<usize> = ranked.iter().map(|e| e.1).collect();
    assert_eq!(names, vec!["git", "ls", "cd"]);
    assert_eq!(counts, vec![5, 5, 3]);
}

#[test]
fn ranking_sorts_descending() {
    let mut t = FrequencyTable::new();
    t.increment(String::from("once"));
    for _ in 0..9 {
        t.increment(String::from("nine"));
    }
    for _ in 0..4 {
        t.increment(String::from("four"));
    }
    let ranked = sort_map(t);
    let names: Vec<&str> = ranked.iter().map(|e| e.0.as_str()).collect();
    assert_eq!(names, vec!["nine", "four", "once"]);
}

#[test]
fn top_n_truncates_only() {
    let mut t = FrequencyTable::new();
    for i in 0..15usize {
        for _ in 0..(15 - i) {
            t.increment(format!("cmd{}", i));
        }
    }
    let ranked = sort_map(t);
    let top = render_top_n(&ranked, 10);
    assert_eq!(top.len(), 10);
    assert_eq!(top[0].0, "cmd0");
    assert_eq!(top[0].1, 15);
    let short = vec![(String::from("a"), 1)];
    let top_short = render_top_n(&short, 10);
    assert_eq!(top_short.len(), 1);
}

#[test]
fn end_to_end_three_records() {
    let l1 = make_log_line("git status", "t1").expect("logged");
    let l2 = make_log_line("git commit", "t2").expect("logged");
    let l3 = make_log_line("git status", "t3").expect("logged");
    // two files, as the rotation might have split them
    let files = vec![vec![l1, l2], vec![l3]];
    let (cmd, inv) = get_command_invocation_maps(&files);
    assert_eq!(lookup(&cmd, "git"), Some(3));
    assert_eq!(cmd.total(), 3);
    assert_eq!(inv.total(), 3);
    assert_eq!(lookup(&inv, "git status"), Some(2));
    assert_eq!(lookup(&inv, "git commit"), Some(1));
    let ranked_cmd = sort_map(cmd);
    assert_eq!(ranked_cmd.len(), 1);
    assert_eq!(ranked_cmd[0].0, "git");
    assert_eq!(ranked_cmd[0].1, 3);
    let ranked_inv = sort_map(inv);
    assert_eq!(ranked_inv[0].0, "git status");
    assert_eq!(ranked_inv[0].1, 2);
    assert_eq!(ranked_inv[1].0, "git commit");
    assert_eq!(ranked_inv[1].1, 1);
}

#[test]
fn whitespace_only_records_count_nowhere() {
    let lines = vec![line("   "), line("git status")];
    let mut cmd = FrequencyTable::new();
    let mut inv = FrequencyTable::new();
    tally_log_file(&lines, &mut cmd, &mut inv);
    assert_eq!(cmd.total(), 1);
    assert_eq!(inv.total(), 1);
}

#[test]
fn count_formatting_splits_leading_zeros() {
    assert_eq!(format_count(0), (String::from("000000"), String::new()));
    assert_eq!(format_count(123), (String::from("000"), String::from("123")));
    assert_eq!(format_count(100000), (String::new(), String::from("100000")));
    assert_eq!(
        format_count(1234567),
        (String::new(), String::from("1234567"))
    );
}

#[test]
fn hex_colors_parse_to_channels() {
    assert_eq!(parse_hex_color("#525252"), Some((0x52, 0x52, 0x52)));
    assert_eq!(parse_hex_color("#6D28D9"), Some((0x6D, 0x28, 0xD9)));
    assert_eq!(parse_hex_color("6d28d9"), Some((0x6D, 0x28, 0xD9)));
    assert_eq!(parse_hex_color("#fff"), None);
    assert_eq!(parse_hex_color("#zzzzzz"), None);
}

#[test]
fn venv_python_without_argument_stays_python() {
    let keys = record_keys("~/.venv/bin/python.exe").expect("has a token");
    assert_eq!(keys.0, "python");
    assert_eq!(keys.1, "python");
}

#[test]
fn venv_python_keeps_only_first_argument() {
    let keys = record_keys("~/.venv/bin/python.exe manage.py runserver").expect("has a token");
    assert_eq!(keys.0, "python");
    assert_eq!(keys.1, "python manage.py");
}

#[test]
fn unicode_whitespace_splits_tokens() {
    let keys = record_keys("git\u{a0}status").expect("has a token");
    assert_eq!(keys.0, "git");
    assert_eq!(keys.1, "git\u{a0}status");
    let keys = record_keys("\u{2003}ls\u{2009}-la").expect("has a token");
    assert_eq!(keys.0, "ls");
    assert_eq!(record_keys("\u{b}\u{2028}"), None);
}
