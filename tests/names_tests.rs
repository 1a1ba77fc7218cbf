use catapult::names::{decimal_string, get_executable_name, time_from_millis};
use catapult::order::key_less;

#[test]
fn executable_name_strips_directories_and_extension() {
    assert_eq!(get_executable_name(&"C:\\Games\\foo.exe".to_string()), "foo");
}

#[test]
fn executable_name_without_directory() {
    assert_eq!(get_executable_name(&"bar.exe".to_string()), "bar");
}

#[test]
fn executable_name_keeps_other_extensions() {
    assert_eq!(get_executable_name(&"C:\\Tools\\run.bat".to_string()), "run.bat");
}

#[test]
fn executable_name_strips_only_trailing_extension() {
    assert_eq!(get_executable_name(&"D:\\x\\my.exe.exe".to_string()), "my.exe");
}

#[test]
fn executable_name_of_empty_path() {
    assert_eq!(get_executable_name(&"".to_string()), "");
}

#[test]
fn executable_name_of_trailing_separator() {
    assert_eq!(get_executable_name(&"C:\\Games\\".to_string()), "");
}

#[test]
fn decimal_digits() {
    assert_eq!(decimal_string(0), "0");
    assert_eq!(decimal_string(7), "7");
    assert_eq!(decimal_string(1234567890), "1234567890");
}

#[test]
fn time_zero() {
    assert_eq!(time_from_millis(0), "0 hours, 0 minutes, 0 seconds");
}

#[test]
fn time_mixed() {
    // 1 h 2 min 3.999 s
    assert_eq!(time_from_millis(3_723_999), "1 hours, 2 minutes, 3 seconds");
}

#[test]
fn time_keeps_whole_days_as_hours() {
    // 25 h 59 min 59 s
    assert_eq!(time_from_millis(93_599_000), "25 hours, 59 minutes, 59 seconds");
    assert_eq!(time_from_millis(90_000_000), "25 hours, 0 minutes, 0 seconds");
}

#[test]
fn key_order() {
    assert!(key_less("abc", "abd"));
    assert!(key_less("ab", "abc"));
    assert!(!key_less("abc", "ab"));
    assert!(!key_less("abc", "abc"));
    assert!(key_less("", "a"));
}
