use skate_mods::batch::{group_by_owner, plan_batch, Slot, SlotResource};
use skate_mods::command::Command;
use skate_mods::fonts::{list_font_entries, FoundFile};

fn file(relative: &str, size: u64) -> FoundFile {
    FoundFile { relative: relative.to_string(), size }
}

fn cube(key: &str) -> Command {
    let one = 1.0f32.to_bits();
    Command::Cube { key: key.to_string(), position: [0, 0, 0], size: [one, one, one], color: [0, 0, 0] }
}

fn overlay(key: &str) -> Command {
    Command::Overlay { key: key.to_string(), text: "t".to_string() }
}

fn teleport() -> Command {
    Command::Teleport { position: [0, 0, 0], heading: 0, on_board: true }
}

fn kinds(cs: &[Command]) -> Vec<String> {
    cs.iter()
        .map(|c| match c {
            Command::Cube { key, .. } => format!("cube:{key}"),
            Command::Overlay { key, .. } => format!("text:{key}"),
            Command::Remove { key } => format!("remove:{key}"),
            Command::Teleport { .. } => "teleport".to_string(),
            Command::Log { text } => format!("log:{text}"),
            _ => "other".to_string(),
        })
        .collect()
}

#[test]
fn fonts_are_listed_sorted_by_path() {
    let found = vec![
        file("fonts/z/Mono.TTF", 30),
        file("fonts/readme.txt", 5),
        file("fonts/Body.otf", 20),
        file("fonts/win/Old.ttf", 10),
        file("fonts/.ttf", 1),
        file("fonts/noext", 1),
    ];
    let listed = list_font_entries(&found);
    let summary: Vec<(String, String, u64)> =
        listed.iter().map(|e| (e.path.clone(), e.name.clone(), e.size)).collect();
    assert_eq!(
        summary,
        vec![
            ("fonts/Body.otf".to_string(), "Body".to_string(), 20),
            ("fonts/win/Old.ttf".to_string(), "Old".to_string(), 10),
            ("fonts/z/Mono.TTF".to_string(), "Mono".to_string(), 30),
        ]
    );
}

#[test]
fn an_empty_folder_lists_nothing() {
    assert!(list_font_entries(&vec![]).is_empty());
}

#[test]
fn font_names_keep_inner_dots() {
    let listed = list_font_entries(&vec![file("fonts/Fira.Mono-subset.ttf", 7)]);
    assert_eq!(listed.len(), 1);
    assert_eq!(listed[0].name, "Fira.Mono-subset");
    assert_eq!(listed[0].path, "fonts/Fira.Mono-subset.ttf");
}

#[test]
fn batches_defer_the_teleport() {
    let cmds = vec![teleport(), cube("a"), Command::Log { text: "x".to_string() }, overlay("b")];
    let planned = plan_batch(vec![], cmds, Ok(())).unwrap();
    assert_eq!(kinds(&planned), vec!["cube:a", "log:x", "text:b", "teleport"]);
}

#[test]
fn a_second_teleport_is_refused() {
    let r = plan_batch(vec![], vec![teleport(), cube("a"), teleport()], Ok(()));
    assert_eq!(r.unwrap_err(), "Only one teleport per mod command batch");
}

#[test]
fn an_unready_teleport_is_refused() {
    let r = plan_batch(vec![], vec![teleport()], Err("Teleport unavailable during reset".to_string()));
    assert_eq!(r.unwrap_err(), "Teleport unavailable during reset");
    // Readiness only matters to a batch that teleports.
    let r = plan_batch(vec![], vec![cube("a")], Err("Teleport unavailable during reset".to_string()));
    assert!(r.is_ok());
}

#[test]
fn owned_objects_are_capped_at_64() {
    let owned: Vec<String> = (0..63).map(|i| format!("k{i}")).collect();
    assert!(plan_batch(owned.clone(), vec![cube("new")], Ok(())).is_ok());
    let r = plan_batch(owned.clone(), vec![cube("new"), overlay("newer")], Ok(()));
    assert_eq!(r.unwrap_err(), "64 owned objects per mod maximum");
    // Updating an owned key or removing first keeps the count.
    assert!(plan_batch(owned.clone(), vec![cube("new"), overlay("k0")], Ok(())).is_ok());
    let r = plan_batch(
        owned,
        vec![cube("new"), Command::Remove { key: "k1".to_string() }, overlay("newer")],
        Ok(()),
    );
    assert!(r.is_ok());
}

#[test]
fn commands_group_by_ascending_owner_in_staging_order() {
    let staged = vec![
        ("zeta".to_string(), cube("a")),
        ("alpha".to_string(), overlay("x")),
        ("zeta".to_string(), cube("b")),
        ("alpha".to_string(), Command::Remove { key: "x".to_string() }),
        ("mid".to_string(), teleport()),
    ];
    let groups = group_by_owner(staged);
    let owners: Vec<&str> = groups.iter().map(|g| g.0.as_str()).collect();
    assert_eq!(owners, vec!["alpha", "mid", "zeta"]);
    assert_eq!(kinds(&groups[0].1), vec!["text:x", "remove:x"]);
    assert_eq!(kinds(&groups[1].1), vec!["teleport"]);
    assert_eq!(kinds(&groups[2].1), vec!["cube:a", "cube:b"]);
}

#[test]
fn a_slot_has_one_owner_at_a_time() {
    let mut slot: Slot<u32> = Slot::new();
    assert!(slot.claim("a.mod".to_string(), 1));
    assert!(slot.held_by("a.mod"));
    assert!(!slot.claim("b.mod".to_string(), 2));
    assert_eq!(slot.held.as_ref().map(|h| h.1), Some(1));
    assert!(slot.held_by_other("b.mod"));
    // The owner may replace its own value.
    assert!(slot.claim("a.mod".to_string(), 3));
    assert_eq!(slot.held.as_ref().map(|h| h.1), Some(3));
    assert!(!slot.release_by("b.mod"));
    assert!(slot.release_by("a.mod"));
    assert!(slot.held.is_none());
    assert!(slot.claim("b.mod".to_string(), 4));
}

#[test]
fn retiring_the_owner_frees_the_slot() {
    let mut slot: Slot<u32> = Slot::new();
    slot.claim("a.mod".to_string(), 1);
    assert!(!slot.release_retired(&vec!["b.mod".to_string()]));
    assert!(slot.held_by("a.mod"));
    assert!(slot.release_retired(&vec!["b.mod".to_string(), "a.mod".to_string()]));
    assert!(slot.held.is_none());
    slot.claim("c.mod".to_string(), 2);
    slot.release();
    assert!(slot.held.is_none());
}

#[test]
fn backslashes_separate_and_become_forward_slashes() {
    let listed = list_font_entries(&vec![file("fonts/a\\b.ttf", 3)]);
    assert_eq!(listed.len(), 1);
    assert_eq!(listed[0].path, "fonts/a/b.ttf");
    assert_eq!(listed[0].name, "b");
}

#[test]
fn a_taken_slot_names_its_resource() {
    let mut trainer: Slot<u32> = Slot::new();
    assert_eq!(trainer.claim_as(SlotResource::Trainer, "a.mod".to_string(), 1), Ok(()));
    assert_eq!(
        trainer.claim_as(SlotResource::Trainer, "b.mod".to_string(), 2),
        Err("Native trainer controls are already owned by another mod".to_string())
    );
    let mut font: Slot<u32> = Slot::new();
    font.claim_as(SlotResource::BaseFont, "a.mod".to_string(), 1).unwrap();
    assert_eq!(
        font.claim_as(SlotResource::BaseFont, "b.mod".to_string(), 2),
        Err("The base font is already set by another mod".to_string())
    );
    assert_eq!(font.claim_as(SlotResource::BaseFont, "a.mod".to_string(), 3), Ok(()));
}
