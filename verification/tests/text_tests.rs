use bump_migrations::replace_all;
use bump_migrations::replace_first;
use bump_migrations::strip_extension;
use bump_migrations::parse_migration_number;
use bump_migrations::text::int_to_string;
use bump_migrations::text::find_first;

#[test]
fn parse_plain_prefix() {
    assert_eq!(parse_migration_number("0002_add_field.py"), Some(2));
}

#[test]
fn parse_without_underscore() {
    assert_eq!(parse_migration_number("10"), Some(10));
}

#[test]
fn parse_zero_padded_zero() {
    assert_eq!(parse_migration_number("00_x.py"), Some(0));
}

#[test]
fn parse_non_numeric_prefix() {
    assert_eq!(parse_migration_number("abc_x.py"), None);
}

#[test]
fn parse_empty_name() {
    assert_eq!(parse_migration_number(""), None);
}

#[test]
fn parse_empty_prefix() {
    assert_eq!(parse_migration_number("_x.py"), None);
}

#[test]
fn parse_extension_in_prefix() {
    assert_eq!(parse_migration_number("1.py"), None);
}

#[test]
fn parse_largest_id() {
    assert_eq!(parse_migration_number("2147483647_x.py"), Some(2147483647));
}

#[test]
fn parse_overflowing_id() {
    assert_eq!(parse_migration_number("2147483648_x.py"), None);
    assert_eq!(parse_migration_number("99999999999999999999_x.py"), None);
}

#[test]
fn int_to_string_zero() {
    assert_eq!(int_to_string(0).as_str(), "0");
}

#[test]
fn int_to_string_many_digits() {
    assert_eq!(int_to_string(1234).as_str(), "1234");
    assert_eq!(int_to_string(1000000).as_str(), "1000000");
}

#[test]
fn find_first_hits_leftmost() {
    assert_eq!(find_first("abcabc", "bc"), Some(1));
    assert_eq!(find_first("abcabc", "zz"), None);
    assert_eq!(find_first("abc", ""), Some(0));
}

#[test]
fn replace_all_single_reference_round_trip() {
    let out = replace_all("depends on 0001_init here", "0001_init", "0003_remove_field");
    assert_eq!(out.as_str(), "depends on 0003_remove_field here");
    assert_eq!(out.matches("0003_remove_field").count(), 1);
    assert_eq!(out.matches("0001_init").count(), 0);
}

#[test]
fn replace_all_every_occurrence() {
    assert_eq!(replace_all("xx", "x", "yy").as_str(), "yyyy");
    assert_eq!(replace_all("a-a-a", "a", "b").as_str(), "b-b-b");
}

#[test]
fn replace_all_no_occurrence() {
    assert_eq!(replace_all("abc", "zz", "y").as_str(), "abc");
}

#[test]
fn replace_all_empty_pattern_is_identity() {
    assert_eq!(replace_all("abc", "", "y").as_str(), "abc");
}

#[test]
fn replace_first_only_first() {
    assert_eq!(replace_first("0002_add_2.py", "2", "4").as_str(), "0004_add_2.py");
}

#[test]
fn replace_first_no_occurrence() {
    assert_eq!(replace_first("abc", "z", "y").as_str(), "abc");
}

#[test]
fn strip_extension_removes_trailing_py() {
    assert_eq!(strip_extension("0001_init.py").as_str(), "0001_init");
}

#[test]
fn strip_extension_keeps_other_names() {
    assert_eq!(strip_extension("0001_init").as_str(), "0001_init");
    assert_eq!(strip_extension("ab").as_str(), "ab");
    assert_eq!(strip_extension("a.py.py").as_str(), "a.py");
}
