use rustixml::charclass::class_admits_exec;
use rustixml::text::{is_alphanumeric, is_white_space, str_eq};

#[test]
fn class_quoted_range() {
    assert!(class_admits_exec("'a'-'z'", 'm'));
    assert!(!class_admits_exec("'a'-'z'", 'M'));
    assert!(class_admits_exec("\"0\"-\"9\"", '7'));
}

#[test]
fn class_lists_and_parts() {
    assert!(class_admits_exec("'a', 'e', 'i'", 'e'));
    assert!(!class_admits_exec("'a', 'e', 'i'", 'b'));
    assert!(class_admits_exec("'x'; '0'-'9'", '3'));
    assert!(class_admits_exec("'abc'", 'b'));
}

#[test]
fn class_hex_forms() {
    assert!(class_admits_exec("#41", 'A'));
    assert!(!class_admits_exec("#41", 'B'));
    assert!(class_admits_exec("#30-#39", '5'));
    assert!(!class_admits_exec("#30-#39", 'a'));
}

#[test]
fn class_unicode_categories() {
    assert!(class_admits_exec("L", 'q'));
    assert!(class_admits_exec("L", 'é'));
    assert!(!class_admits_exec("L", '5'));
    assert!(class_admits_exec("Nd", '5'));
    assert!(class_admits_exec("Lu", 'Q'));
    assert!(!class_admits_exec("Lu", 'q'));
    assert!(class_admits_exec("Ll", 'q'));
}

#[test]
fn text_helpers() {
    assert!(is_white_space('\t'));
    assert!(is_white_space('\u{3000}'));
    assert!(!is_white_space('x'));
    assert!(is_alphanumeric('ß'));
    assert!(is_alphanumeric('٣'));
    assert!(!is_alphanumeric('-'));
    assert!(str_eq("abc", "abc"));
    assert!(!str_eq("abc", "abd"));
}
