use cli_wrapped::file::{
    extract_log_number, get_highest_log_number, get_log_file_path, is_log_file_name,
    log_file_name, year_dir_name, current_year_dir_name, LOG_FILE_EXTENSION, LOG_FILE_PREFIX,
    LOG_FOLDERS_DIR, MAX_LINES,
};

#[test]
fn constants_match_layout() {
    assert_eq!(LOG_FOLDERS_DIR, "cli-wrapped");
    assert_eq!(LOG_FILE_PREFIX, "command_log_");
    assert_eq!(LOG_FILE_EXTENSION, ".jsonl");
    assert_eq!(MAX_LINES, 100);
}

#[test]
fn log_file_name_zero() {
    assert_eq!(log_file_name(0), "command_log_0.jsonl");
    assert_eq!(log_file_name(41), "command_log_41.jsonl");
}

#[test]
fn extract_log_number_reads_sequence_numbers() {
    assert_eq!(extract_log_number("command_log_7.jsonl"), Some(7));
    assert_eq!(extract_log_number("command_log_123.jsonl"), Some(123));
    assert_eq!(extract_log_number("command_log_0.jsonl"), Some(0));
}

#[test]
fn extract_log_number_ignores_other_names() {
    assert_eq!(extract_log_number("command_log_.jsonl"), None);
    assert_eq!(extract_log_number("command_log_12x.jsonl"), None);
    assert_eq!(extract_log_number("notes.txt"), None);
    assert_eq!(extract_log_number("command_log_3.json"), None);
    assert_eq!(extract_log_number("xcommand_log_3.jsonl"), None);
    assert_eq!(
        extract_log_number("command_log_99999999999999999999999999.jsonl"),
        None
    );
}

#[test]
fn is_log_file_name_filters_the_scan() {
    assert!(is_log_file_name("command_log_5.jsonl"));
    assert!(!is_log_file_name("command_log_5.txt"));
    assert!(!is_log_file_name("readme.md"));
}

#[test]
fn highest_log_number_takes_strict_maximum() {
    let names = vec![
        String::from("command_log_2.jsonl"),
        String::from("junk.txt"),
        String::from("command_log_10.jsonl"),
        String::from("command_log_bad.jsonl"),
        String::from("command_log_4.jsonl"),
    ];
    assert_eq!(get_highest_log_number(&names), 10);
    let none: Vec<String> = Vec::new();
    assert_eq!(get_highest_log_number(&none), 0);
}

#[test]
fn write_target_appends_until_full() {
    assert_eq!(get_log_file_path(5, true, 99), "command_log_5.jsonl");
    assert_eq!(get_log_file_path(5, true, 0), "command_log_5.jsonl");
    assert_eq!(get_log_file_path(5, false, 0), "command_log_5.jsonl");
    assert_eq!(get_log_file_path(5, true, 100), "command_log_6.jsonl");
    assert_eq!(get_log_file_path(0, false, 0), "command_log_0.jsonl");
}

#[test]
fn rotation_creates_ceil_n_over_c_files() {
    // Drive the write-target decision through 250 simulated appends and
    // count the files it creates.
    let mut counts: Vec<usize> = Vec::new();
    for _ in 0..250 {
        let exists = !counts.is_empty();
        let highest = if exists { counts.len() - 1 } else { 0 };
        let line_count = if exists { counts[highest] } else { 0 };
        let name = get_log_file_path(highest, exists, line_count);
        let idx = extract_log_number(&name).expect("write target is a log file name");
        if idx == counts.len() {
            counts.push(1);
        } else {
            counts[idx] += 1;
        }
    }
    assert_eq!(counts.len(), 3); // ceil(250 / 100)
    assert_eq!(counts, vec![100, 100, 50]);
}

#[test]
fn rotation_zero_appends_zero_files() {
    let counts: Vec<usize> = Vec::new();
    assert_eq!(counts.len(), 0);
    // the first append only then creates the first file
    let name = get_log_file_path(0, false, 0);
    assert_eq!(extract_log_number(&name), Some(0));
}

#[test]
fn year_dir_name_is_decimal_year() {
    assert_eq!(year_dir_name(2024), "2024");
    assert_eq!(year_dir_name(0), "0");
    assert_eq!(year_dir_name(-44), "-44");
}

#[test]
fn current_year_dir_name_is_a_plausible_year() {
    let name = current_year_dir_name();
    let year: i32 = name.parse().expect("year directory is a number");
    assert!(year >= 2020);
    assert!(year < 3000);
}
