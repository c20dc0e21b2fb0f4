use skate_mods::manifest::Manifest;
use skate_mods::settings::{merge_settings, Setting, SettingKind, SettingValue};

fn num(v: f64) -> SettingValue {
    SettingValue::Number { value: v.to_bits(), json: v.to_string() }
}

fn text(s: &str) -> SettingValue {
    SettingValue::Text(s.to_string())
}

fn string_setting(default: &str) -> Setting {
    Setting {
        kind: SettingKind::String,
        label: "Greeting".to_string(),
        description: "Text shown on screen.".to_string(),
        default: text(default),
        min: None,
        max: None,
        step: None,
        choices: vec![],
    }
}

fn number_setting(min: f64, max: f64, step: f64, default: f64) -> Setting {
    Setting {
        kind: SettingKind::Number,
        label: "Scale".to_string(),
        description: "Multiplier.".to_string(),
        default: num(default),
        min: Some(min.to_bits()),
        max: Some(max.to_bits()),
        step: Some(step.to_bits()),
        choices: vec![],
    }
}

fn choice_setting(choices: &[&str], default: &str) -> Setting {
    Setting {
        kind: SettingKind::Choice,
        label: "Key".to_string(),
        description: "Shortcut.".to_string(),
        default: text(default),
        min: None,
        max: None,
        step: None,
        choices: choices.iter().map(|c| c.to_string()).collect(),
    }
}

fn manifest() -> Manifest {
    Manifest {
        id: "yourname.first-mod".to_string(),
        api: 1,
        name: "My first mod".to_string(),
        version: "1.0.0".to_string(),
        author: "Your name".to_string(),
        description: "An example mod.".to_string(),
        entry: "main.lua".to_string(),
        settings: vec![("greeting".to_string(), string_setting("Hello skater"))],
    }
}

#[test]
fn boolean_settings_accept_booleans_only() {
    let s = Setting {
        kind: SettingKind::Boolean,
        label: "On".to_string(),
        description: String::new(),
        default: SettingValue::Bool(true),
        min: None,
        max: None,
        step: None,
        choices: vec![],
    };
    assert!(s.accepts(&SettingValue::Bool(false)));
    assert!(!s.accepts(&text("true")));
    assert!(s.valid());
}

#[test]
fn number_settings_are_finite_and_in_range() {
    let s = number_setting(0.2, 6.0, 0.1, 1.0);
    assert!(s.valid());
    assert!(s.accepts(&num(0.2)));
    assert!(s.accepts(&num(6.0)));
    assert!(s.accepts(&num(1.23)));
    assert!(!s.accepts(&num(6.5)));
    assert!(!s.accepts(&num(-1.0)));
    assert!(!s.accepts(&num(f64::NAN)));
    assert!(!s.accepts(&text("1")));
    // Negative bounds order like the numbers they encode.
    let neg = number_setting(-10.0, -1.0, 1.0, -5.0);
    assert!(neg.valid());
    assert!(neg.accepts(&num(-10.0)));
    assert!(!neg.accepts(&num(-0.5)));
    assert!(!neg.accepts(&num(-11.0)));
}

#[test]
fn number_schema_rules() {
    assert!(!number_setting(0.0, 1.0, 0.0, 0.5).valid());
    assert!(!number_setting(0.0, 1.0, -1.0, 0.5).valid());
    assert!(!number_setting(0.0, 1.0, 0.1, 2.0).valid());
    assert!(!number_setting(f64::NEG_INFINITY, 1.0, 0.1, 0.5).valid());
    let mut missing = number_setting(0.0, 1.0, 0.1, 0.5);
    missing.step = None;
    assert!(!missing.valid());
}

#[test]
fn string_settings_limit_characters() {
    let s = string_setting("hi");
    assert!(s.valid());
    assert!(s.accepts(&text(&"é".repeat(128))));
    assert!(!s.accepts(&text(&"é".repeat(129))));
    assert!(!s.accepts(&text("a\nb")));
    assert!(!s.accepts(&text("a\u{85}b")));
    assert!(!s.accepts(&SettingValue::Bool(true)));
}

#[test]
fn choice_settings_accept_listed_strings() {
    let s = choice_setting(&["F5", "F6"], "F5");
    assert!(s.valid());
    assert!(s.accepts(&text("F6")));
    assert!(!s.accepts(&text("F7")));
    assert!(!choice_setting(&[], "F5").valid());
    assert!(!choice_setting(&["F5", "F6"], "F7").valid());
    let many: Vec<String> = (0..33).map(|i| format!("k{i}")).collect();
    let refs: Vec<&str> = many.iter().map(|s| s.as_str()).collect();
    assert!(!choice_setting(&refs, "k0").valid());
}

#[test]
fn schema_text_limits() {
    let mut s = string_setting("x");
    s.label = "l".repeat(121);
    assert!(!s.valid());
    let mut s = string_setting("x");
    s.description = "d".repeat(513);
    assert!(!s.valid());
    let mut s = string_setting("x");
    s.description = "d".repeat(512);
    assert!(s.valid());
}

#[test]
fn merging_keeps_compatible_values_and_defaults_the_rest() {
    let schema = vec![
        ("greeting".to_string(), string_setting("Hello")),
        ("scale".to_string(), number_setting(0.5, 2.0, 0.1, 1.0)),
        ("shortcut".to_string(), choice_setting(&["F5", "F6"], "F5")),
    ];
    let saved = vec![
        ("greeting".to_string(), text("Howdy")),
        ("scale".to_string(), num(9.0)),
        ("removed".to_string(), SettingValue::Bool(true)),
    ];
    let merged = merge_settings(&schema, &saved);
    assert_eq!(merged.len(), 3);
    assert_eq!(merged[0].0, "greeting");
    assert!(matches!(&merged[0].1, SettingValue::Text(t) if t == "Howdy"));
    assert_eq!(merged[1].0, "scale");
    assert!(matches!(&merged[1].1, SettingValue::Number { value, .. } if *value == 1.0f64.to_bits()));
    assert_eq!(merged[2].0, "shortcut");
    assert!(matches!(&merged[2].1, SettingValue::Text(t) if t == "F5"));
}

#[test]
fn merging_twice_changes_nothing() {
    let schema = vec![
        ("greeting".to_string(), string_setting("Hello")),
        ("scale".to_string(), number_setting(0.5, 2.0, 0.1, 1.0)),
    ];
    let saved = vec![("scale".to_string(), num(1.5))];
    let once = merge_settings(&schema, &saved);
    let twice = merge_settings(&schema, &once);
    assert_eq!(format!("{once:?}"), format!("{twice:?}"));
}

#[test]
fn the_documented_manifest_is_valid() {
    assert_eq!(manifest().validate(), Ok(()));
}

#[test]
fn manifest_rules_report_the_first_problem() {
    let mut m = manifest();
    m.id = "Your.Mod".to_string();
    assert_eq!(m.validate(), Err("Invalid mod ID".to_string()));
    let mut m = manifest();
    m.api = 2;
    assert_eq!(m.validate(), Err("Unsupported api: this host implements api 1".to_string()));
    let mut m = manifest();
    m.name = String::new();
    assert_eq!(m.validate(), Err("Name must be 1 to 120 bytes".to_string()));
    let mut m = manifest();
    m.version = "1.0".to_string();
    assert_eq!(m.validate(), Err("Version must be MAJOR.MINOR.PATCH".to_string()));
    let mut m = manifest();
    m.version = "1..0".to_string();
    assert_eq!(m.validate(), Err("Version must be MAJOR.MINOR.PATCH".to_string()));
    let mut m = manifest();
    m.version = "10.20.30".to_string();
    assert_eq!(m.validate(), Ok(()));
    let mut m = manifest();
    m.author = "a".repeat(121);
    assert_eq!(m.validate(), Err("Author must be at most 120 bytes".to_string()));
    let mut m = manifest();
    m.description = "d".repeat(2049);
    assert_eq!(m.validate(), Err("Description must be at most 2048 bytes".to_string()));
    let mut m = manifest();
    m.entry = "../main.lua".to_string();
    assert_eq!(m.validate(), Err("Entry must be a relative path without traversal".to_string()));
    let mut m = manifest();
    m.entry = String::new();
    assert_eq!(m.validate(), Err("Entry must be a relative path without traversal".to_string()));
}

#[test]
fn manifest_settings_rules() {
    let mut m = manifest();
    m.settings = (0..25).map(|i| (format!("k{i:02}"), string_setting("x"))).collect();
    assert_eq!(m.validate(), Err("At most 24 settings".to_string()));
    let mut m = manifest();
    m.settings = vec![("Bad Key".to_string(), string_setting("x"))];
    assert_eq!(m.validate(), Err("Invalid setting key".to_string()));
    let mut m = manifest();
    m.settings = vec![("k".to_string(), number_setting(0.0, 1.0, 0.1, 3.0))];
    assert_eq!(m.validate(), Err("Invalid setting schema".to_string()));
}

#[test]
fn setting_keys_must_ascend_once() {
    let mut m = manifest();
    m.settings = vec![("b".to_string(), string_setting("x")), ("a".to_string(), string_setting("y"))];
    assert_eq!(m.validate(), Err("Setting keys must be unique and in ascending order".to_string()));
    let mut m = manifest();
    m.settings = vec![("a".to_string(), string_setting("x")), ("a".to_string(), string_setting("y"))];
    assert_eq!(m.validate(), Err("Setting keys must be unique and in ascending order".to_string()));
    let mut m = manifest();
    m.settings = vec![("a".to_string(), string_setting("x")), ("b".to_string(), string_setting("y"))];
    assert_eq!(m.validate(), Ok(()));
}
