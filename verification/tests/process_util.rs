use ptkgenerator::process_util::{decimal_string, find_process_id, get_file_name, needs_new_file, parse_file_size, GB, MB};

#[test]
fn file_name_format() {
    assert_eq!(get_file_name(1700000000, 3, "x:", "tmp"), "x:\\1700000000-3.tmp");
    assert_eq!(get_file_name(0, 0, "", "dat"), "\\0-0.dat");
}

#[test]
fn decimal_strings() {
    assert_eq!(decimal_string(0), "0");
    assert_eq!(decimal_string(9), "9");
    assert_eq!(decimal_string(10), "10");
    assert_eq!(decimal_string(u64::MAX), u64::MAX.to_string());
}

#[test]
fn file_size_settings() {
    assert_eq!(parse_file_size("1GB"), Ok(Some(GB)));
    assert_eq!(parse_file_size("512mb"), Ok(Some(512 * MB)));
    assert_eq!(parse_file_size("+2Gb"), Ok(Some(2 * GB)));
    assert_eq!(parse_file_size("3KMB"), Ok(Some(3 * MB)));
    assert_eq!(parse_file_size("100"), Ok(None));
    assert_eq!(parse_file_size("1kb"), Ok(None));
    assert_eq!(parse_file_size("GB"), Err(()));
    assert_eq!(parse_file_size("1 GB"), Err(()));
    assert_eq!(parse_file_size("-1GB"), Err(()));
    assert_eq!(parse_file_size("99999999999999999999999GB"), Err(()));
}

#[test]
fn file_size_overflow_is_refused() {
    let n = (usize::MAX / GB) + 1;
    assert_eq!(parse_file_size(&format!("{}GB", n)), Err(()));
    let m = usize::MAX / GB;
    assert_eq!(parse_file_size(&format!("{}GB", m)), Ok(Some(m * GB)));
}

#[test]
fn process_found_by_name_in_any_case() {
    let procs = vec![(4usize, "System".to_string()), (100, "GameApp.exe".to_string()), (200, "gameapp.EXE".to_string())];
    assert_eq!(find_process_id(&procs, "gameapp.exe"), Some(100));
    assert_eq!(find_process_id(&procs, "missing.exe"), None);
}

#[test]
fn new_file_once_size_is_passed() {
    assert!(!needs_new_file(100, 100));
    assert!(needs_new_file(101, 100));
}
