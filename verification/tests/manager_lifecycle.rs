use skate_mods::command::Command;
use skate_mods::manager::{AfterSetting, Found, Manager, Preferences, ScanStep};
use skate_mods::manifest::Manifest;
use skate_mods::settings::{Setting, SettingKind, SettingValue};

fn text(s: &str) -> SettingValue {
    SettingValue::Text(s.to_string())
}

fn greeting(default: &str) -> Setting {
    Setting {
        kind: SettingKind::String,
        label: "Greeting".to_string(),
        description: "Text shown on screen.".to_string(),
        default: text(default),
        min: None,
        max: None,
        step: None,
        choices: vec![],
    }
}

fn manifest(id: &str) -> Manifest {
    Manifest {
        id: id.to_string(),
        api: 1,
        name: "Mod".to_string(),
        version: "1.0.0".to_string(),
        author: "Me".to_string(),
        description: String::new(),
        entry: "main.lua".to_string(),
        settings: vec![
            ("color".to_string(), greeting("red")),
            ("greeting".to_string(), greeting("Hello skater")),
        ],
    }
}

fn install(m: &mut Manager, id: &str, enabled: bool) {
    let saved = Preferences { enabled, values: vec![] };
    m.insert(id.to_string(), manifest(id), &saved, 7);
}

fn log(t: &str) -> Command {
    Command::Log { text: t.to_string() }
}

fn found(id: &str, hash: u64) -> Found<()> {
    Found { id: id.to_string(), hash, data: () }
}

#[test]
fn packages_are_kept_in_ascending_id_order() {
    let mut m = Manager::new();
    install(&mut m, "zeta.mod", false);
    install(&mut m, "alpha.mod", false);
    install(&mut m, "mid.mod", false);
    let ids: Vec<String> = m.ids();
    assert_eq!(ids, vec!["alpha.mod", "mid.mod", "zeta.mod"]);
    assert_eq!(m.position("mid.mod"), Some(1));
    assert_eq!(m.position("other"), None);
}

#[test]
fn new_packages_take_saved_values_that_fit() {
    let mut m = Manager::new();
    let saved = Preferences {
        enabled: true,
        values: vec![("greeting".to_string(), text("Howdy")), ("color".to_string(), SettingValue::Bool(true))],
    };
    m.insert("a.mod".to_string(), manifest("a.mod"), &saved, 1);
    let p = &m.packages()[0];
    assert!(p.enabled);
    assert!(!p.running());
    assert_eq!(p.content_fingerprint(), 1);
    assert!(matches!(&p.settings[0].1, SettingValue::Text(t) if t == "red"));
    assert!(matches!(&p.settings[1].1, SettingValue::Text(t) if t == "Howdy"));
}

#[test]
fn enabling_an_unknown_mod_is_refused() {
    let mut m = Manager::new();
    assert_eq!(m.enable("nope", true, None), Err("Unknown mod".to_string()));
    assert!(m.take_retired().is_empty());
    install(&mut m, "a.mod", false);
    assert_eq!(m.enable("a.mod", true, None), Ok(()));
    assert!(m.wants_start("a.mod"));
    assert_eq!(m.enable("a.mod", false, None), Ok(()));
    assert!(!m.wants_start("a.mod"));
}

#[test]
fn a_successful_load_runs_the_package() {
    let mut m = Manager::new();
    install(&mut m, "a.mod", true);
    assert!(m.start("a.mod", Ok(())));
    assert!(m.is_running("a.mod"));
    assert!(m.packages()[0].error.is_none());
    assert!(!m.start("missing", Ok(())));
}

#[test]
fn a_failed_load_is_recorded_and_retired() {
    let mut m = Manager::new();
    install(&mut m, "a.mod", true);
    assert!(!m.start("a.mod", Err("main.lua:1: syntax".to_string())));
    assert!(!m.is_running("a.mod"));
    assert_eq!(m.packages()[0].error.as_deref(), Some("main.lua:1: syntax"));
    assert_eq!(m.take_retired(), vec!["a.mod".to_string()]);
}

#[test]
fn callback_commands_are_queued_with_their_owner() {
    let mut m = Manager::new();
    install(&mut m, "a.mod", true);
    install(&mut m, "b.mod", true);
    m.start("a.mod", Ok(()));
    m.start("b.mod", Ok(()));
    assert_eq!(m.record_callback("a.mod", "on_load", Ok(vec![log("1"), log("2")])), None);
    assert_eq!(m.record_callback("b.mod", "on_load", Ok(vec![log("3")])), None);
    let owners: Vec<&str> = m.commands().iter().map(|c| c.0.as_str()).collect();
    assert_eq!(owners, vec!["a.mod", "a.mod", "b.mod"]);
}

#[test]
fn a_failing_callback_commits_nothing() {
    let mut m = Manager::new();
    install(&mut m, "a.mod", true);
    m.start("a.mod", Ok(()));
    m.record_callback("a.mod", "on_load", Ok(vec![log("kept")]));
    let r = m.record_callback("a.mod", "on_update", Err("boom".to_string()));
    assert_eq!(r, Some("on_update: boom".to_string()));
    assert_eq!(m.commands().len(), 1);
    m.fail("a.mod", r.unwrap(), Some(Ok(())));
    assert!(m.commands().is_empty());
    assert!(!m.is_running("a.mod"));
    assert_eq!(m.packages()[0].error.as_deref(), Some("on_update: boom"));
}

#[test]
fn stopped_packages_produce_nothing() {
    let mut m = Manager::new();
    install(&mut m, "a.mod", true);
    assert_eq!(m.record_callback("a.mod", "on_update", Ok(vec![log("x")])), None);
    assert_eq!(m.record_callback("a.mod", "on_update", Err("x".to_string())), None);
    assert!(m.commands().is_empty());
}

#[test]
fn stopping_drops_only_the_owners_commands() {
    let mut m = Manager::new();
    install(&mut m, "a.mod", true);
    install(&mut m, "b.mod", true);
    m.start("a.mod", Ok(()));
    m.start("b.mod", Ok(()));
    m.record_callback("a.mod", "on_update", Ok(vec![log("a1")]));
    m.record_callback("b.mod", "on_update", Ok(vec![log("b1")]));
    m.record_callback("a.mod", "on_update", Ok(vec![log("a2")]));
    m.stop("a.mod", Some(Err("bad unload".to_string())));
    let owners: Vec<&str> = m.commands().iter().map(|c| c.0.as_str()).collect();
    assert_eq!(owners, vec!["b.mod"]);
    assert!(!m.is_running("a.mod"));
    assert_eq!(m.packages()[0].error.as_deref(), Some("on_unload: bad unload"));
    assert_eq!(m.take_retired(), vec!["a.mod".to_string()]);
    assert!(m.take_retired().is_empty());
}

#[test]
fn settings_are_validated_and_read_back() {
    let mut m = Manager::new();
    assert_eq!(m.setting("a.mod", "greeting", text("x")).unwrap_err(), "Unknown mod".to_string());
    install(&mut m, "a.mod", false);
    assert_eq!(m.setting("a.mod", "nope", text("x")).unwrap_err(), "Unknown setting".to_string());
    assert_eq!(m.setting("a.mod", "greeting", SettingValue::Bool(true)).unwrap_err(), "Invalid setting value".to_string());
    assert!(matches!(m.setting("a.mod", "greeting", text("Yo")), Ok(AfterSetting::Save)));
    let p = &m.packages()[0];
    assert!(matches!(&p.settings[1].1, SettingValue::Text(t) if t == "Yo"));
    assert!(matches!(&p.settings[0].1, SettingValue::Text(t) if t == "red"));
}

#[test]
fn reset_lists_defaults_in_key_order() {
    let mut m = Manager::new();
    assert_eq!(m.defaults("a.mod").unwrap_err(), "Unknown mod");
    install(&mut m, "a.mod", false);
    m.setting("a.mod", "greeting", text("Yo")).unwrap();
    let d = m.defaults("a.mod").unwrap();
    let keys: Vec<&str> = d.iter().map(|e| e.0.as_str()).collect();
    assert_eq!(keys, vec!["color", "greeting"]);
    assert!(matches!(&d[1].1, SettingValue::Text(t) if t == "Hello skater"));
}

#[test]
fn scans_run_at_most_every_500_ms() {
    let mut m = Manager::new();
    assert!(m.scan_due(false, 1000));
    assert!(!m.scan_due(false, 1499));
    assert!(m.scan_due(false, 1500));
    assert!(m.scan_due(true, 1501));
    assert!(!m.scan_due(false, 1700));
}

#[test]
fn a_due_scan_clears_diagnostics() {
    let mut m = Manager::new();
    m.diagnose("old".to_string());
    assert!(!m.diagnostics().is_empty());
    assert!(m.scan_due(false, 0));
    assert!(m.diagnostics().is_empty());
}

#[test]
fn duplicate_ids_reject_all_copies() {
    let mut m = Manager::new();
    let accepted = m.accept_found(vec![found("b.mod", 1), found("a.mod", 2), found("b.mod", 3), found("c.mod", 4)]);
    let ids: Vec<&str> = accepted.iter().map(|f| f.id.as_str()).collect();
    assert_eq!(ids, vec!["a.mod", "c.mod"]);
    assert_eq!(m.diagnostics(), &vec!["Duplicate mod ID b.mod: all copies rejected".to_string()]);
}

#[test]
fn deleted_packages_retire_at_once_and_invalid_ones_after_grace() {
    let mut m = Manager::new();
    install(&mut m, "gone.mod", false);
    install(&mut m, "broken.mod", false);
    install(&mut m, "ok.mod", false);
    let accepted = vec![found("ok.mod", 7)];
    let missing = vec!["gone.mod".to_string()];
    assert_eq!(m.plan_removals(&accepted, &missing, false, 10_000), vec!["gone.mod".to_string()]);
    assert_eq!(m.remove("gone.mod"), Some(1));
    assert!(m.plan_removals(&accepted, &vec![], false, 10_500).is_empty());
    assert!(m.plan_removals(&accepted, &vec![], false, 10_749).is_empty());
    assert_eq!(m.plan_removals(&accepted, &vec![], false, 10_750), vec!["broken.mod".to_string()]);
}

#[test]
fn forced_scans_remove_invalid_packages_at_once() {
    let mut m = Manager::new();
    install(&mut m, "broken.mod", false);
    let none: Vec<Found<()>> = vec![];
    assert_eq!(m.plan_removals(&none, &vec![], true, 0), vec!["broken.mod".to_string()]);
}

#[test]
fn a_valid_package_again_clears_its_grace() {
    let mut m = Manager::new();
    install(&mut m, "a.mod", false);
    let none: Vec<Found<()>> = vec![];
    assert!(m.plan_removals(&none, &vec![], false, 0).is_empty());
    assert!(m.plan_removals(&vec![found("a.mod", 7)], &vec![], false, 500).is_empty());
    assert!(m.plan_removals(&none, &vec![], false, 1000).is_empty());
    assert!(m.plan_removals(&none, &vec![], false, 1749).is_empty());
    assert_eq!(m.plan_removals(&none, &vec![], false, 1750), vec!["a.mod".to_string()]);
}

#[test]
fn changed_contents_reinstall_after_750_ms_of_stability() {
    let mut m = Manager::new();
    install(&mut m, "a.mod", true);
    // Unchanged contents need nothing.
    assert!(m.plan_updates(vec![found("a.mod", 7)], false, 0).is_empty());
    // A new hash is first recorded as pending.
    assert!(m.plan_updates(vec![found("a.mod", 8)], false, 1000).is_empty());
    assert_eq!(m.packages()[0].pending, Some((8, 1000)));
    assert!(m.plan_updates(vec![found("a.mod", 8)], false, 1749).is_empty());
    // Another change restarts the wait.
    assert!(m.plan_updates(vec![found("a.mod", 9)], false, 1800).is_empty());
    assert_eq!(m.packages()[0].pending, Some((9, 1800)));
    let steps = m.plan_updates(vec![found("a.mod", 9)], false, 2550);
    assert_eq!(steps.len(), 1);
    assert!(matches!(&steps[0], ScanStep::Replace { id, hash: 9, .. } if id == "a.mod"));
    assert!(m.replace("a.mod", manifest("a.mod"), 9));
    assert_eq!(m.packages()[0].content_fingerprint(), 9);
    assert_eq!(m.packages()[0].pending, None);
}

#[test]
fn forced_scans_reinstall_changes_at_once_and_add_new_packages() {
    let mut m = Manager::new();
    install(&mut m, "b.mod", false);
    let steps = m.plan_updates(vec![found("a.mod", 1), found("b.mod", 2)], true, 0);
    assert_eq!(steps.len(), 2);
    assert!(matches!(&steps[0], ScanStep::Add { id, hash: 1, .. } if id == "a.mod"));
    assert!(matches!(&steps[1], ScanStep::Replace { id, hash: 2, .. } if id == "b.mod"));
}

#[test]
fn reinstalling_keeps_values_the_new_schema_accepts() {
    let mut m = Manager::new();
    install(&mut m, "a.mod", false);
    m.setting("a.mod", "greeting", text("Yo")).unwrap();
    m.setting("a.mod", "color", text("blue")).unwrap();
    let mut next = manifest("a.mod");
    next.settings = vec![("greeting".to_string(), greeting("Hi"))];
    assert!(m.replace("a.mod", next, 11));
    let p = &m.packages()[0];
    assert_eq!(p.settings.len(), 1);
    assert!(matches!(&p.settings[0].1, SettingValue::Text(t) if t == "Yo"));
    assert!(!m.replace("other", manifest("other"), 1));
}

#[test]
fn removing_a_package() {
    let mut m = Manager::new();
    install(&mut m, "a.mod", false);
    install(&mut m, "b.mod", false);
    assert_eq!(m.remove("a.mod"), Some(0));
    assert_eq!(m.remove("a.mod"), None);
    assert_eq!(m.ids(), vec!["b.mod".to_string()]);
}

#[test]
fn clearing_commands_on_world_change() {
    let mut m = Manager::new();
    install(&mut m, "a.mod", true);
    m.start("a.mod", Ok(()));
    m.record_callback("a.mod", "on_update", Ok(vec![log("x")]));
    m.clear_commands();
    assert!(m.commands().is_empty());
    m.record_callback("a.mod", "on_update", Ok(vec![log("y")]));
    let taken = m.take_commands();
    assert_eq!(taken.len(), 1);
    assert!(m.commands().is_empty());
}

#[test]
fn new_packages_start_disabled_without_saved_preferences() {
    let mut m = Manager::new();
    m.insert("a.mod".to_string(), manifest("a.mod"), &Preferences::default(), 1);
    assert!(!m.wants_start("a.mod"));
    assert!(matches!(&m.packages()[0].settings[1].1, SettingValue::Text(t) if t == "Hello skater"));
}

#[test]
fn the_saved_form_holds_the_preference_and_values() {
    let mut m = Manager::new();
    assert_eq!(m.saved_form("a.mod").unwrap_err(), "Unknown mod");
    install(&mut m, "a.mod", true);
    m.setting("a.mod", "greeting", text("Yo")).unwrap();
    let saved = m.saved_form("a.mod").unwrap();
    assert!(saved.enabled);
    assert_eq!(saved.values.len(), 2);
    assert!(matches!(&saved.values[1].1, SettingValue::Text(t) if t == "Yo"));
}

#[test]
fn a_reinstalled_package_gets_a_fresh_grace_interval() {
    let mut m = Manager::new();
    install(&mut m, "a", false);
    let none: Vec<Found<()>> = vec![];
    assert!(m.plan_removals(&none, &vec![], false, 0).is_empty());
    assert_eq!(m.plan_removals(&none, &vec![], false, 750), vec!["a".to_string()]);
    assert_eq!(m.remove("a"), Some(0));
    // Found valid again and installed anew.
    assert!(m.plan_removals(&vec![found("a", 7)], &vec![], false, 2000).is_empty());
    install(&mut m, "a", false);
    // Invalid again: the grace starts over.
    assert!(m.plan_removals(&none, &vec![], false, 3000).is_empty());
    assert!(m.plan_removals(&none, &vec![], false, 3749).is_empty());
    assert_eq!(m.plan_removals(&none, &vec![], false, 3750), vec!["a".to_string()]);
}

#[test]
fn installed_packages_keep_their_manifest_ids() {
    let mut m = Manager::new();
    install(&mut m, "b.mod", false);
    install(&mut m, "a.mod", false);
    for p in m.packages() {
        assert_eq!(p.id, p.manifest.id);
        assert_eq!(p.manifest.validate(), Ok(()));
        assert_eq!(p.settings.len(), p.manifest.settings.len());
    }
}

#[test]
fn disabling_stops_the_package_and_drops_its_commands() {
    let mut m = Manager::new();
    install(&mut m, "a.mod", true);
    install(&mut m, "b.mod", true);
    m.start("a.mod", Ok(()));
    m.start("b.mod", Ok(()));
    m.record_callback("a.mod", "on_update", Ok(vec![log("a")]));
    m.record_callback("b.mod", "on_update", Ok(vec![log("b")]));
    m.take_retired();
    assert_eq!(m.enable("a.mod", false, Some(Err("bye".to_string()))), Ok(()));
    assert!(!m.is_running("a.mod"));
    assert!(!m.wants_start("a.mod"));
    assert_eq!(m.packages()[0].error.as_deref(), Some("on_unload: bye"));
    let owners: Vec<&str> = m.commands().iter().map(|c| c.0.as_str()).collect();
    assert_eq!(owners, vec!["b.mod"]);
    assert_eq!(m.take_retired(), vec!["a.mod".to_string()]);
}

#[test]
fn only_enabled_packages_start() {
    let mut m = Manager::new();
    install(&mut m, "a.mod", false);
    assert!(!m.start("a.mod", Ok(())));
    assert!(!m.is_running("a.mod"));
    assert!(!m.start("a.mod", Err("x".to_string())));
    assert!(m.packages()[0].error.is_none());
    assert!(m.take_retired().is_empty());
}

#[test]
fn a_setting_of_a_running_package_is_announced_with_all_values() {
    let mut m = Manager::new();
    install(&mut m, "a.mod", true);
    m.start("a.mod", Ok(()));
    match m.setting("a.mod", "greeting", text("Yo")).unwrap() {
        AfterSetting::Notify { values } => {
            assert_eq!(values.len(), 2);
            assert!(matches!(&values[1].1, SettingValue::Text(t) if t == "Yo"));
        }
        AfterSetting::Save => panic!("a running package is notified"),
    }
}

#[test]
fn batches_of_stopped_owners_are_dropped() {
    let mut m = Manager::new();
    install(&mut m, "a.mod", true);
    install(&mut m, "b.mod", true);
    m.start("b.mod", Ok(()));
    let batches = vec![
        ("a.mod".to_string(), vec![log("a")]),
        ("b.mod".to_string(), vec![log("b")]),
        ("gone.mod".to_string(), vec![log("g")]),
    ];
    let kept = m.running_batches(batches);
    assert_eq!(kept.len(), 1);
    assert_eq!(kept[0].0, "b.mod");
}
