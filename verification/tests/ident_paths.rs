use skate_mods::ident::valid_id;
use skate_mods::paths::{check_read_size, check_relative_path};

#[test]
fn ids_follow_the_documented_alphabet() {
    assert!(valid_id("yourname.first-mod"));
    assert!(valid_id("a_b-c.9"));
    assert!(!valid_id(""));
    assert!(!valid_id("Upper"));
    assert!(!valid_id("."));
    assert!(!valid_id(".."));
    assert!(valid_id("..."));
    assert!(!valid_id(&"a".repeat(65)));
    assert!(valid_id(&"a".repeat(64)));
    assert!(!valid_id("has space"));
}

#[test]
fn device_stems_are_rejected() {
    assert!(!valid_id("con"));
    assert!(!valid_id("aux"));
    assert!(!valid_id("nul.json"));
    assert!(!valid_id("com1"));
    assert!(!valid_id("lpt9.x"));
    assert!(valid_id("com0"));
    assert!(valid_id("console"));
    assert!(valid_id("my.con"));
}

#[test]
fn relative_paths_without_traversal_are_accepted() {
    assert!(check_relative_path("main.lua").is_ok());
    assert!(check_relative_path("assets/help.txt").is_ok());
    assert!(check_relative_path("a/./b").is_ok());
    assert!(check_relative_path("a//b").is_ok());
    assert!(check_relative_path("...").is_ok());
    assert!(check_relative_path("").is_ok());
}

#[test]
fn traversal_and_absolute_paths_are_refused() {
    for p in ["../x", "a/../b", "..", "/etc/passwd", "./a", ".", "C:x", "a/b:c", "a/..", "a\\..\\b", "\\x", ".\\a"] {
        assert_eq!(
            check_relative_path(p),
            Err("Use a relative path without traversal".to_string()),
            "{p}"
        );
    }
}

#[test]
fn reads_over_the_limit_are_refused() {
    assert!(check_read_size(10, 10).is_ok());
    assert_eq!(check_read_size(11, 10), Err("Asset too large".to_string()));
}
