use skate_mods::command::{stage, Command, TrainerTuning, MAX_STAGED};
use skate_mods::floatbits::{finite, positive_at_most, within, within_from_zero, F32_FOUR, F32_ONE, F32_QUARTER};

fn bits(v: f32) -> u32 {
    v.to_bits()
}

fn point(x: f32, y: f32, z: f32) -> [u32; 3] {
    [bits(x), bits(y), bits(z)]
}

fn tuning_with(pop: f32, wobble: f32) -> TrainerTuning {
    let mut t = TrainerTuning::default();
    t.pop = bits(pop);
    t.wobble = bits(wobble);
    t
}

#[test]
fn bit_constants_encode_their_values() {
    assert_eq!(F32_ONE, 1.0f32.to_bits());
    assert_eq!(F32_QUARTER, 0.25f32.to_bits());
    assert_eq!(F32_FOUR, 4.0f32.to_bits());
}

#[test]
fn float_predicates_follow_the_numbers() {
    assert!(finite(bits(1.5)));
    assert!(finite(bits(-3.0)));
    assert!(!finite(bits(f32::INFINITY)));
    assert!(!finite(bits(f32::NEG_INFINITY)));
    assert!(!finite(bits(f32::NAN)));
    assert!(within(bits(0.25), F32_QUARTER, F32_FOUR));
    assert!(within(bits(4.0), F32_QUARTER, F32_FOUR));
    assert!(!within(bits(4.01), F32_QUARTER, F32_FOUR));
    assert!(!within(bits(0.2), F32_QUARTER, F32_FOUR));
    assert!(!within(bits(-1.0), F32_QUARTER, F32_FOUR));
    assert!(within_from_zero(bits(0.0), F32_ONE));
    assert!(within_from_zero(bits(-0.0), F32_ONE));
    assert!(!within_from_zero(bits(-0.5), F32_ONE));
    assert!(positive_at_most(bits(100.0), 100.0f32.to_bits()));
    assert!(!positive_at_most(bits(0.0), 100.0f32.to_bits()));
}

#[test]
fn default_tuning_is_neutral_and_valid() {
    let t = TrainerTuning::default();
    assert_eq!(t.pop, 1.0f32.to_bits());
    assert_eq!(t.manual_drag, 1.0f32.to_bits());
    assert_eq!(t.wobble, 1.0f32.to_bits());
    assert!(!t.hold_fakie);
    assert!(t.valid());
}

#[test]
fn tuning_ranges_are_inclusive() {
    assert!(tuning_with(0.25, 0.0).valid());
    assert!(tuning_with(4.0, 2.0).valid());
    assert!(!tuning_with(4.5, 1.0).valid());
    assert!(!tuning_with(0.1, 1.0).valid());
    assert!(!tuning_with(1.0, 2.5).valid());
    assert!(!tuning_with(f32::NAN, 1.0).valid());
    assert!(!tuning_with(1.0, -1.0).valid());
}

#[test]
fn cube_bounds() {
    let ok = Command::Cube {
        key: "box".to_string(),
        position: point(0.0, 100000.0, -100000.0),
        size: point(1.0, 100.0, 0.5),
        color: point(0.0, 1.0, 0.5),
    };
    assert!(ok.validate(false));
    let far = Command::Cube {
        key: "box".to_string(),
        position: point(100001.0, 0.0, 0.0),
        size: point(1.0, 1.0, 1.0),
        color: point(0.0, 0.0, 0.0),
    };
    assert!(!far.validate(false));
    let flat = Command::Cube {
        key: "box".to_string(),
        position: point(0.0, 0.0, 0.0),
        size: point(0.0, 1.0, 1.0),
        color: point(0.0, 0.0, 0.0),
    };
    assert!(!flat.validate(false));
    let bright = Command::Cube {
        key: "box".to_string(),
        position: point(0.0, 0.0, 0.0),
        size: point(1.0, 1.0, 1.0),
        color: point(1.5, 0.0, 0.0),
    };
    assert!(!bright.validate(false));
    let bad_key = Command::Cube {
        key: "Box".to_string(),
        position: point(0.0, 0.0, 0.0),
        size: point(1.0, 1.0, 1.0),
        color: point(0.0, 0.0, 0.0),
    };
    assert!(!bad_key.validate(false));
}

#[test]
fn teleport_needs_finite_heading_and_near_position() {
    let t = Command::Teleport { position: point(1.0, 2.0, 3.0), heading: bits(3.14), on_board: true };
    assert!(t.validate(false));
    let t = Command::Teleport { position: point(1.0, 2.0, 3.0), heading: bits(f32::INFINITY), on_board: true };
    assert!(!t.validate(false));
    let t = Command::Teleport { position: point(f32::NAN, 2.0, 3.0), heading: 0, on_board: false };
    assert!(!t.validate(false));
}

#[test]
fn text_limits_count_utf8_bytes() {
    assert!(Command::Log { text: "x".repeat(2048) }.validate(false));
    assert!(!Command::Log { text: "x".repeat(2049) }.validate(false));
    // 683 three-byte characters are 2049 bytes.
    assert!(!Command::Log { text: "€".repeat(683) }.validate(false));
    assert!(Command::Overlay { key: "hud".to_string(), text: "y".repeat(1024) }.validate(false));
    assert!(!Command::Overlay { key: "hud".to_string(), text: "y".repeat(1025) }.validate(false));
    assert!(!Command::Animation { path: String::new() }.validate(false));
    assert!(Command::Animation { path: "a".repeat(256) }.validate(false));
    assert!(!Command::Animation { path: "a".repeat(257) }.validate(false));
}

#[test]
fn font_command_rules() {
    let ok = Command::UiFont { path: "fonts/a.ttf".to_string(), scale: bits(1.0) };
    assert!(ok.validate(false));
    let clear = Command::UiFont { path: String::new(), scale: bits(1.0) };
    assert!(clear.validate(false));
    let control = Command::UiFont { path: "fonts/\ta.ttf".to_string(), scale: bits(1.0) };
    assert!(!control.validate(false));
    let big = Command::UiFont { path: "fonts/a.ttf".to_string(), scale: bits(4.5) };
    assert!(!big.validate(false));
    let small = Command::UiFont { path: "fonts/a.ttf".to_string(), scale: bits(0.25) };
    assert!(small.validate(false));
}

#[test]
fn network_and_vehicle_commands() {
    let net = Command::NetworkState { key: "score".to_string(), value: b"12".to_vec() };
    assert!(net.validate(false));
    let big = Command::NetworkState { key: "score".to_string(), value: vec![b'1'; 513] };
    assert!(!big.validate(false));
    let tune = Command::VehicleTune { key: "kart".to_string(), tuning: b"{}".to_vec() };
    assert!(tune.validate(true));
    assert!(!tune.validate(false));
    let spawn = Command::VehicleSpawn {
        key: "kart".to_string(),
        definition: "vehicle.json".to_string(),
        position: point(0.0, 0.0, 0.0),
        heading: bits(0.0),
    };
    assert!(spawn.validate(true));
    assert!(!spawn.validate(false));
    assert!(Command::VehicleRemove { key: "kart".to_string() }.validate(false));
    assert!(!Command::VehicleEnter { key: "..".to_string() }.validate(true));
    let reset = Command::VehicleReset { key: "kart".to_string(), position: point(0.0, 1.0, 0.0), heading: bits(f32::NAN) };
    assert!(!reset.validate(true));
}

#[test]
fn staging_appends_valid_commands() {
    let mut q = Vec::new();
    assert_eq!(stage(&mut q, Command::Log { text: "hi".to_string() }, false), Ok(()));
    assert_eq!(q.len(), 1);
    assert_eq!(
        stage(&mut q, Command::Remove { key: "Bad Key".to_string() }, false),
        Err("Invalid command arguments".to_string())
    );
    assert_eq!(q.len(), 1);
}

#[test]
fn staging_stops_at_128_commands() {
    let mut q = Vec::new();
    for _ in 0..MAX_STAGED {
        assert!(stage(&mut q, Command::Remove { key: "a".to_string() }, false).is_ok());
    }
    assert_eq!(
        stage(&mut q, Command::Remove { key: "a".to_string() }, false),
        Err("128 commands per callback maximum".to_string())
    );
    assert_eq!(q.len(), 128);
    // An invalid command is refused as invalid even when the queue is full.
    assert_eq!(
        stage(&mut q, Command::Log { text: "x".repeat(5000) }, false),
        Err("Invalid command arguments".to_string())
    );
}
