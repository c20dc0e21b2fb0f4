use skate_mods::batch::plan_batch;
use skate_mods::command::Command;
use skate_mods::objects::ObjectTable;

fn rows(t: &ObjectTable<u32>) -> Vec<(String, String, u32)> {
    t.entries().iter().map(|e| (e.0.clone(), e.1.clone(), e.2)).collect()
}

#[test]
fn objects_are_ordered_by_owner_then_key() {
    let mut t: ObjectTable<u32> = ObjectTable::new();
    assert_eq!(t.insert("b.mod".to_string(), "hud".to_string(), 1), None);
    assert_eq!(t.insert("a.mod".to_string(), "zz".to_string(), 2), None);
    assert_eq!(t.insert("a.mod".to_string(), "aa".to_string(), 3), None);
    assert_eq!(
        rows(&t),
        vec![
            ("a.mod".to_string(), "aa".to_string(), 3),
            ("a.mod".to_string(), "zz".to_string(), 2),
            ("b.mod".to_string(), "hud".to_string(), 1),
        ]
    );
}

#[test]
fn a_key_holds_one_object_per_owner() {
    let mut t: ObjectTable<u32> = ObjectTable::new();
    t.insert("a.mod".to_string(), "box".to_string(), 1);
    // A text under the same key replaces the cube.
    assert_eq!(t.insert("a.mod".to_string(), "box".to_string(), 2), Some(1));
    assert_eq!(t.get("a.mod", "box"), Some(&2));
    // Another owner's key is separate.
    assert_eq!(t.get("b.mod", "box"), None);
    assert_eq!(t.remove("b.mod", "box"), None);
    assert_eq!(t.remove("a.mod", "box"), Some(2));
    assert_eq!(t.get("a.mod", "box"), None);
    assert_eq!(t.count_of("a.mod"), 0);
}

#[test]
fn the_64th_object_is_the_last() {
    let mut t: ObjectTable<u32> = ObjectTable::new();
    for i in 0..63 {
        t.insert("a.mod".to_string(), format!("k{i:02}"), i);
    }
    assert_eq!(t.check_capacity("a.mod", "new", false), Ok(()));
    t.insert("a.mod".to_string(), "new".to_string(), 99);
    assert_eq!(t.count_of("a.mod"), 64);
    assert_eq!(
        t.check_capacity("a.mod", "newer", false),
        Err("64 owned objects per mod maximum".to_string())
    );
    assert_eq!(t.check_capacity("a.mod", "k00", false), Ok(()));
    assert_eq!(t.check_capacity("a.mod", "newer", true), Ok(()));
    assert_eq!(t.check_capacity("b.mod", "newer", false), Ok(()));
}

#[test]
fn retiring_owners_returns_their_handles() {
    let mut t: ObjectTable<u32> = ObjectTable::new();
    t.insert("a.mod".to_string(), "x".to_string(), 1);
    t.insert("b.mod".to_string(), "y".to_string(), 2);
    t.insert("a.mod".to_string(), "w".to_string(), 3);
    t.insert("c.mod".to_string(), "z".to_string(), 4);
    let gone = t.retire(&vec!["a.mod".to_string(), "c.mod".to_string()]);
    assert_eq!(gone, vec![3, 1, 4]);
    assert_eq!(rows(&t), vec![("b.mod".to_string(), "y".to_string(), 2)]);
    assert!(t.retire(&vec![]).is_empty());
}

#[test]
fn owned_keys_feed_the_batch_check() {
    let mut t: ObjectTable<u32> = ObjectTable::new();
    for i in 0..64 {
        t.insert("a.mod".to_string(), format!("k{i:02}"), i);
    }
    t.insert("b.mod".to_string(), "other".to_string(), 0);
    let keys = t.keys_of("a.mod");
    assert_eq!(keys.len(), 64);
    let r = plan_batch(keys, vec![Command::Overlay { key: "k99".to_string(), text: String::new() }], Ok(()));
    assert_eq!(r.unwrap_err(), "64 owned objects per mod maximum");
    let r = plan_batch(t.keys_of("b.mod"), vec![Command::Overlay { key: "k99".to_string(), text: String::new() }], Ok(()));
    assert!(r.is_ok());
}
