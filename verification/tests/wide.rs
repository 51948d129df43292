use win_rmdir_fast::wide::{is_directory, is_dot_entry, name_length, os_error_code, path_to_wide};

fn units(text: &str) -> Vec<u16> {
    let mut wide: Vec<u16> = text.encode_utf16().collect();
    wide.push(0);
    wide
}

#[test]
fn absolute_path_gets_the_long_prefix() {
    assert_eq!(path_to_wide("C:\\x", true), vec![92, 92, 63, 92, 67, 58, 92, 120, 0]);
    assert_eq!(path_to_wide("C:\\temp\\dir", true), units("\\\\?\\C:\\temp\\dir"));
}

#[test]
fn prefixed_path_is_not_prefixed_again() {
    assert_eq!(path_to_wide("\\\\?\\C:\\x", true), units("\\\\?\\C:\\x"));
    assert_eq!(path_to_wide("\\\\?\\", true), vec![92, 92, 63, 92, 0]);
    // almost the prefix
    assert_eq!(path_to_wide("\\\\?C:\\x", true), units("\\\\?\\\\\\?C:\\x"));
}

#[test]
fn relative_path_stays_as_it_is() {
    assert_eq!(path_to_wide("a\\b", false), vec![97, 92, 98, 0]);
    assert_eq!(path_to_wide("", false), vec![0]);
    assert_eq!(path_to_wide("C:\\x", false), units("C:\\x"));
}

#[test]
fn characters_are_encoded_as_utf16() {
    // one unit below 0x10000, a surrogate pair above
    assert_eq!(path_to_wide("\u{e9}", false), vec![0xE9, 0]);
    assert_eq!(path_to_wide("\u{ffff}", false), vec![0xFFFF, 0]);
    assert_eq!(path_to_wide("\u{10000}", false), vec![0xD800, 0xDC00, 0]);
    assert_eq!(path_to_wide("\u{1F600}", false), vec![0xD83D, 0xDE00, 0]);
    assert_eq!(path_to_wide("\u{10FFFF}", false), vec![0xDBFF, 0xDFFF, 0]);
    let mixed = "d\u{e9}p\u{f4}t\\\u{65e5}\u{672c}\\\u{1F600}.txt";
    assert_eq!(path_to_wide(mixed, false), units(mixed));
    assert_eq!(path_to_wide(mixed, true), units(&format!("\\\\?\\{}", mixed)));
}

#[test]
fn error_code_is_the_low_half_of_the_result_code() {
    // 0x80070005: access denied
    assert_eq!(os_error_code(0x80070005u32 as i32), 5);
    assert_eq!(os_error_code(0x80070002u32 as i32), 2);
    assert_eq!(os_error_code(0), 0);
    assert_eq!(os_error_code(-1), 0xFFFF);
    assert_eq!(os_error_code(0x12345678), 0x5678);
}

#[test]
fn name_ends_at_the_first_zero() {
    assert_eq!(name_length(&[97, 98, 0, 99, 0]), 2);
    assert_eq!(name_length(&[0, 97]), 0);
    assert_eq!(name_length(&[97, 98, 99]), 3);
    assert_eq!(name_length(&[]), 0);
    let mut record = [0u16; 260];
    record[0] = 46;
    record[1] = 46;
    assert_eq!(name_length(&record), 2);
}

#[test]
fn dot_entries_are_skipped() {
    assert!(is_dot_entry(&String::from(".")));
    assert!(is_dot_entry(&String::from("..")));
    assert!(!is_dot_entry(&String::from("...")));
    assert!(!is_dot_entry(&String::from("")));
    assert!(!is_dot_entry(&String::from(".git")));
    assert!(!is_dot_entry(&String::from("a")));
}

#[test]
fn directory_bit_is_bit_four() {
    assert!(is_directory(0x10));
    assert!(is_directory(0x11));
    assert!(is_directory(0xFFFF_FFFF));
    assert!(!is_directory(0));
    assert!(!is_directory(0x20));
    assert!(!is_directory(0x0F));
    // a link to a directory has both bits; it counts as a directory here
    assert!(is_directory(0x410));
}
