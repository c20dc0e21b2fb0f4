use skate_mods::package::{
    check_callback, check_entry_source, check_not_symlink, check_source_text, package_source,
    ContentTally, MAX_ENTRIES,
};
use skate_mods::package::{spend_budget, INSTRUCTION_BUDGET};
use skate_mods::paths::check_contained;

#[test]
fn package_sources_are_visible_folders_and_zips() {
    assert!(package_source("native-trainer", true));
    assert!(package_source("mods/native-trainer.zip", false));
    assert!(package_source("kart.ZIP", false));
    assert!(package_source("kart.Zip", false));
    assert!(!package_source(".legacy-kart", true));
    assert!(!package_source("mods/.hidden.zip", false));
    assert!(!package_source("notes.txt", false));
    assert!(!package_source("zip", false));
    assert!(!package_source(".zip", false));
    assert!(package_source("a.b.zip", false));
    assert!(!package_source("mods\\.git", true));
    assert!(package_source("mods\\kart.zip", false));
}

#[test]
fn bytecode_is_refused() {
    assert_eq!(check_source_text("return {}"), Ok(()));
    assert_eq!(
        check_source_text("\u{1b}Lua"),
        Err("Lua bytecode is unsupported".to_string())
    );
    assert_eq!(check_source_text(""), Ok(()));
}

#[test]
fn entry_source_must_compile() {
    assert_eq!(check_entry_source("return { on_load = function() end }"), Ok(()));
    assert_eq!(
        check_entry_source("\u{1b}LuaT"),
        Err("Lua bytecode is unsupported".to_string())
    );
    let broken = "return { on_load = function( end";
    let err = check_entry_source(broken).unwrap_err();
    assert!(!err.is_empty());
    assert_ne!(err, broken);
    assert!(err.contains("syntax error") || err.contains("expected"), "{err}");
}

#[test]
fn entry_compilation_runs_nothing() {
    // A script that would fail when run still compiles.
    assert_eq!(check_entry_source("error('boom')"), Ok(()));
}

#[test]
fn callbacks_are_the_documented_functions() {
    for name in ["on_load", "on_unload", "on_update", "on_fixed_update", "on_event", "on_settings"] {
        assert_eq!(check_callback(name, true), Ok(()));
    }
    assert_eq!(
        check_callback("on_tick", true),
        Err("Unknown callback or non-function: on_tick".to_string())
    );
    assert_eq!(
        check_callback("on_load", false),
        Err("Unknown callback or non-function: on_load".to_string())
    );
}

#[test]
fn tally_refuses_the_513th_entry() {
    let mut t = ContentTally::new();
    for _ in 0..MAX_ENTRIES {
        assert_eq!(t.count_entry(), Ok(()));
    }
    assert_eq!(t.entries, 512);
    assert_eq!(
        t.count_entry(),
        Err("Package exceeds 512 files/directories".to_string())
    );
    assert_eq!(t.entries, 512);
}

#[test]
fn tally_refuses_more_than_64_mib() {
    let mut t = ContentTally::new();
    assert_eq!(t.add_file(64 * 1024 * 1024 - 1), Ok(()));
    assert_eq!(t.add_file(1), Ok(()));
    assert_eq!(t.bytes, 64 * 1024 * 1024);
    assert_eq!(t.add_file(1), Err("Package exceeds 64 MiB".to_string()));
    let mut t = ContentTally::new();
    assert_eq!(t.add_file(u64::MAX), Err("Package exceeds 64 MiB".to_string()));
    assert_eq!(t.bytes, 0);
}

#[test]
fn links_and_escapes_are_refused() {
    assert_eq!(check_not_symlink(false), Ok(()));
    assert_eq!(check_not_symlink(true), Err("Symlinks are not supported".to_string()));
    assert_eq!(check_contained(true), Ok(()));
    assert_eq!(check_contained(false), Err("Asset escapes mod root".to_string()));
}

#[test]
fn discovery_inspects_the_first_128_sources() {
    let few: Vec<u32> = (0..128).collect();
    let (kept, excess) = skate_mods::package::within_package_limit(few);
    assert_eq!(kept.len(), 128);
    assert_eq!(excess, None);
    let many: Vec<u32> = (0..130).collect();
    let (kept, excess) = skate_mods::package::within_package_limit(many);
    assert_eq!(kept, (0..128).collect::<Vec<u32>>());
    assert_eq!(
        excess,
        Some("Only the first 128 packages are supported; remove excess packages".to_string())
    );
}

#[test]
fn the_instruction_budget_runs_out() {
    let mut left = INSTRUCTION_BUDGET;
    for _ in 0..INSTRUCTION_BUDGET {
        left = spend_budget(left).unwrap();
    }
    assert_eq!(left, 0);
    assert_eq!(spend_budget(0), Err("Lua instruction budget exhausted".to_string()));
}

#[test]
fn the_sandbox_removes_protected_calls_and_loaders() {
    let names = skate_mods::package::removed_globals();
    assert_eq!(names, vec!["pcall", "xpcall", "load", "loadfile", "dofile", "collectgarbage", "print"]);
}
