//! Tests for name parsing, sanitizing, and decimal rendering.

use contact_detector::names::{
    parse_surface_name, sanitize_filename, sanitize_name, str_eq, usize_to_string,
};

#[test]
fn test_parse_surface_name() {
    assert_eq!(parse_surface_name("Block_1:patch_4"), (Some(1), Some(4)));
    assert_eq!(parse_surface_name("Block_2:patch_1"), (Some(2), Some(1)));
    assert_eq!(parse_surface_name("SimpleBlock"), (None, None));
}

#[test]
fn test_sanitize_name() {
    assert_eq!(sanitize_name("Block_1:patch_4"), "Block_1_patch_4");
    assert_eq!(sanitize_name("Part-A/B"), "Part_A_B");
}

#[test]
fn test_sanitize_filename() {
    assert_eq!(sanitize_filename("Block 1"), "Block_1");
    assert_eq!(sanitize_filename("Part-A/B"), "Part-A_B");
    assert_eq!(sanitize_filename("Normal_Name"), "Normal_Name");
}

#[test]
fn test_parse_surface_name_edge_cases() {
    // no number after the last underscore
    assert_eq!(parse_surface_name("Block_:patch_2"), (None, Some(2)));
    // a leading plus sign is accepted, as str::parse does
    assert_eq!(parse_surface_name("Block_+7:patch_+1"), (Some(7), Some(1)));
    // only text between the first and second colon counts for the patch id
    assert_eq!(parse_surface_name("Block_3:patch_5:extra_9"), (Some(3), Some(5)));
    // empty patch segment
    assert_eq!(parse_surface_name("Block_3:"), (Some(3), None));
    // a number too large for usize is rejected
    assert_eq!(
        parse_surface_name("b_99999999999999999999999999:patch_1"),
        (None, Some(1))
    );
    assert_eq!(parse_surface_name(""), (None, None));
    // a whole-segment number with no underscore
    assert_eq!(parse_surface_name("17:4"), (Some(17), Some(4)));
}

#[test]
fn test_usize_to_string() {
    assert_eq!(usize_to_string(0), "0");
    assert_eq!(usize_to_string(7), "7");
    assert_eq!(usize_to_string(12345), "12345");
    assert_eq!(usize_to_string(usize::MAX), format!("{}", usize::MAX));
}

#[test]
fn test_usize_to_string_parses_back() {
    for n in [0usize, 1, 9, 10, 11, 99, 100, 4096, 1048575] {
        let s = format!("x_{}", usize_to_string(n));
        assert_eq!(parse_surface_name(&s).0, Some(n));
    }
}

#[test]
fn test_str_eq() {
    assert!(str_eq("", ""));
    assert!(str_eq("abc", "abc"));
    assert!(!str_eq("abc", "abd"));
    assert!(!str_eq("abc", "abcd"));
    assert!(str_eq("naïve", "naïve"));
}

#[test]
fn test_sanitize_name_unicode() {
    // alphanumeric characters outside ASCII pass through unchanged
    assert_eq!(sanitize_name("naïve name"), "naïve_name");
}
