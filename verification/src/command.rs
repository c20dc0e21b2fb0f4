//! Host commands that package callbacks stage, and the bounds they must respect.
//! Coordinates, sizes, colours, headings and multipliers are carried as the bit patterns of
//! their `f32` values (see `floatbits`).
use vstd::prelude::*;
use crate::floatbits::{
    abs_at_most, finite, positive_at_most, spec_abs_at_most, spec_finite, spec_positive_at_most,
    spec_within, spec_within_from_zero, within, within_from_zero, F32_FOUR, F32_HUNDRED,
    F32_HUNDRED_THOUSAND, F32_ONE, F32_QUARTER, F32_TWO,
};
use crate::ident::{spec_valid_id, valid_id};

verus! {

/// Multipliers of the native trainer, as `f32` bit patterns.
#[derive(Clone, Copy, Debug)]
pub struct TrainerTuning {
    pub pop: u32,
    pub grind_pop: u32,
    pub push_speed: u32,
    pub push_power: u32,
    pub braking: u32,
    pub steering: u32,
    pub offboard_jump: u32,
    pub grip: u32,
    pub turn_power: u32,
    pub manual_drag: u32,
    pub wobble: u32,
    pub hold_fakie: bool,
}

/// Every multiplier lies in `[0.25, 4]` and the wobble in `[0, 2]`.
pub open spec fn spec_tuning_valid(t: TrainerTuning) -> bool {
    &&& spec_within(t.pop, F32_QUARTER, F32_FOUR)
    &&& spec_within(t.grind_pop, F32_QUARTER, F32_FOUR)
    &&& spec_within(t.push_speed, F32_QUARTER, F32_FOUR)
    &&& spec_within(t.push_power, F32_QUARTER, F32_FOUR)
    &&& spec_within(t.braking, F32_QUARTER, F32_FOUR)
    &&& spec_within(t.steering, F32_QUARTER, F32_FOUR)
    &&& spec_within(t.offboard_jump, F32_QUARTER, F32_FOUR)
    &&& spec_within(t.grip, F32_QUARTER, F32_FOUR)
    &&& spec_within(t.turn_power, F32_QUARTER, F32_FOUR)
    &&& spec_within(t.manual_drag, F32_QUARTER, F32_FOUR)
    &&& spec_within_from_zero(t.wobble, F32_TWO)
}

impl TrainerTuning {
    /// Whether every field lies in its documented range.
    pub fn valid(&self) -> (r: bool)
        ensures
            r == spec_tuning_valid(*self),
    {
        within(self.pop, F32_QUARTER, F32_FOUR) && within(self.grind_pop, F32_QUARTER, F32_FOUR)
            && within(self.push_speed, F32_QUARTER, F32_FOUR) && within(
            self.push_power,
            F32_QUARTER,
            F32_FOUR,
        ) && within(self.braking, F32_QUARTER, F32_FOUR) && within(
            self.steering,
            F32_QUARTER,
            F32_FOUR,
        ) && within(self.offboard_jump, F32_QUARTER, F32_FOUR) && within(
            self.grip,
            F32_QUARTER,
            F32_FOUR,
        ) && within(self.turn_power, F32_QUARTER, F32_FOUR) && within(
            self.manual_drag,
            F32_QUARTER,
            F32_FOUR,
        ) && within_from_zero(self.wobble, F32_TWO)
    }
}

impl Default for TrainerTuning {
    /// The neutral tuning: every multiplier `1.0`, no forced fakie.
    fn default() -> (t: Self)
        ensures
            t.pop == F32_ONE && t.grind_pop == F32_ONE && t.push_speed == F32_ONE
                && t.push_power == F32_ONE && t.braking == F32_ONE && t.steering == F32_ONE
                && t.offboard_jump == F32_ONE && t.grip == F32_ONE && t.turn_power == F32_ONE
                && t.manual_drag == F32_ONE && t.wobble == F32_ONE && !t.hold_fakie,
    {
        TrainerTuning {
            pop: F32_ONE,
            grind_pop: F32_ONE,
            push_speed: F32_ONE,
            push_power: F32_ONE,
            braking: F32_ONE,
            steering: F32_ONE,
            offboard_jump: F32_ONE,
            grip: F32_ONE,
            turn_power: F32_ONE,
            manual_drag: F32_ONE,
            wobble: F32_ONE,
            hold_fakie: false,
        }
    }
}

/// A command staged by a package callback. Vehicle payloads and network values are kept as
/// their JSON text; whether a vehicle payload is well formed is decided by the vehicle module.
#[derive(Clone, Debug)]
pub enum Command {
    NetworkState { key: String, value: Vec<u8> },
    VehicleTune { key: String, tuning: Vec<u8> },
    VehicleSpawn { key: String, definition: String, position: [u32; 3], heading: u32 },
    VehicleRemove { key: String },
    VehicleEnter { key: String },
    VehicleExit { key: String },
    VehicleReset { key: String, position: [u32; 3], heading: u32 },
    VehicleControl { key: String, controls: Vec<u8> },
    Trainer { tuning: TrainerTuning },
    Log { text: String },
    Animation { path: String },
    UiFont { path: String, scale: u32 },
    Overlay { key: String, text: String },
    Cube { key: String, position: [u32; 3], size: [u32; 3], color: [u32; 3] },
    Remove { key: String },
    Teleport { position: [u32; 3], heading: u32, on_board: bool },
}

/// Number of bytes of the UTF-8 encoding of `s`.
pub open spec fn byte_len(s: Seq<char>) -> nat {
    vstd::utf8::encode_utf8(s).len()
}

/// Every coordinate is finite and within 100000 of the origin.
pub open spec fn spec_point(p: [u32; 3]) -> bool {
    spec_abs_at_most(p[0], F32_HUNDRED_THOUSAND) && spec_abs_at_most(p[1], F32_HUNDRED_THOUSAND)
        && spec_abs_at_most(p[2], F32_HUNDRED_THOUSAND)
}

/// Every component lies in `(0, 100]`.
pub open spec fn spec_size(p: [u32; 3]) -> bool {
    spec_positive_at_most(p[0], F32_HUNDRED) && spec_positive_at_most(p[1], F32_HUNDRED)
        && spec_positive_at_most(p[2], F32_HUNDRED)
}

/// Every component lies in `[0, 1]`.
pub open spec fn spec_color(p: [u32; 3]) -> bool {
    spec_within_from_zero(p[0], F32_ONE) && spec_within_from_zero(p[1], F32_ONE)
        && spec_within_from_zero(p[2], F32_ONE)
}

/// An ASCII control character.
pub open spec fn control_char(c: char) -> bool {
    c < ' ' || c == '\x7f'
}

/// The command respects the bounds of its kind; `vehicle_payload_valid` is the vehicle
/// module's verdict on the tuning, the definition path or the controls of a vehicle command.
pub open spec fn spec_command_valid(c: Command, vehicle_payload_valid: bool) -> bool {
    match c {
        Command::NetworkState { key, value } => spec_valid_id(key@) && value@.len() <= 512,
        Command::VehicleTune { key, .. } => spec_valid_id(key@) && vehicle_payload_valid,
        Command::VehicleSpawn { key, position, heading, .. } => spec_valid_id(key@)
            && vehicle_payload_valid && spec_point(position) && spec_finite(heading),
        Command::VehicleReset { key, position, heading } => spec_valid_id(key@) && spec_point(
            position,
        ) && spec_finite(heading),
        Command::VehicleControl { key, .. } => spec_valid_id(key@) && vehicle_payload_valid,
        Command::VehicleRemove { key } => spec_valid_id(key@),
        Command::VehicleEnter { key } => spec_valid_id(key@),
        Command::VehicleExit { key } => spec_valid_id(key@),
        Command::Trainer { tuning } => spec_tuning_valid(tuning),
        Command::Animation { path } => path@.len() > 0 && byte_len(path@) <= 256,
        Command::UiFont { path, scale } => {
            &&& byte_len(path@) <= 256
            &&& forall|i: int| 0 <= i < path@.len() ==> !control_char(#[trigger] path@[i])
            &&& spec_within(scale, F32_QUARTER, F32_FOUR)
        },
        Command::Log { text } => byte_len(text@) <= 2048,
        Command::Overlay { key, text } => spec_valid_id(key@) && byte_len(text@) <= 1024,
        Command::Cube { key, position, size, color } => spec_valid_id(key@) && spec_point(
            position,
        ) && spec_size(size) && spec_color(color),
        Command::Remove { key } => spec_valid_id(key@),
        Command::Teleport { position, heading, .. } => spec_point(position) && spec_finite(
            heading,
        ),
    }
}

fn point(p: &[u32; 3]) -> (r: bool)
    ensures
        r == spec_point(*p),
{
    abs_at_most(p[0], F32_HUNDRED_THOUSAND) && abs_at_most(p[1], F32_HUNDRED_THOUSAND)
        && abs_at_most(p[2], F32_HUNDRED_THOUSAND)
}

fn size_ok(p: &[u32; 3]) -> (r: bool)
    ensures
        r == spec_size(*p),
{
    positive_at_most(p[0], F32_HUNDRED) && positive_at_most(p[1], F32_HUNDRED)
        && positive_at_most(p[2], F32_HUNDRED)
}

fn color_ok(p: &[u32; 3]) -> (r: bool)
    ensures
        r == spec_color(*p),
{
    within_from_zero(p[0], F32_ONE) && within_from_zero(p[1], F32_ONE) && within_from_zero(
        p[2],
        F32_ONE,
    )
}

fn no_control_chars(s: &str) -> (r: bool)
    ensures
        r == forall|i: int| 0 <= i < s@.len() ==> !control_char(#[trigger] s@[i]),
{
    let cs = crate::text::chars_of(s);
    let n = cs.len();
    let mut i: usize = 0;
    while i < n
        invariant
            n == cs@.len(),
            cs@ == s@,
            i <= n,
            forall|j: int| 0 <= j < i ==> !control_char(#[trigger] cs@[j]),
        decreases n - i,
    {
        let c = cs[i];
        if c < ' ' || c == '\x7f' {
            assert(control_char(s@[i as int]));
            return false;
        }
        i = i + 1;
    }
    true
}

impl Command {
    /// Whether the command respects the bounds of its kind (see `spec_command_valid`).
    pub fn validate(&self, vehicle_payload_valid: bool) -> (r: bool)
        ensures
            r == spec_command_valid(*self, vehicle_payload_valid),
    {
        let r = match self {
            Command::NetworkState { key, value } => valid_id(key.as_str()) && value.len() <= 512,
            Command::VehicleTune { key, .. } => valid_id(key.as_str()) && vehicle_payload_valid,
            Command::VehicleSpawn { key, position, heading, .. } => valid_id(key.as_str())
                && vehicle_payload_valid && point(position) && finite(*heading),
            Command::VehicleReset { key, position, heading } => valid_id(key.as_str()) && point(
                position,
            ) && finite(*heading),
            Command::VehicleControl { key, .. } => valid_id(key.as_str())
                && vehicle_payload_valid,
            Command::VehicleRemove { key } => valid_id(key.as_str()),
            Command::VehicleEnter { key } => valid_id(key.as_str()),
            Command::VehicleExit { key } => valid_id(key.as_str()),
            Command::Trainer { tuning } => tuning.valid(),
            Command::Animation { path } => path.as_str().as_bytes().len() > 0 && path.as_str().as_bytes().len() <= 256,
            Command::UiFont { path, scale } => path.as_str().as_bytes().len() <= 256 && no_control_chars(
                path.as_str(),
            ) && within(*scale, F32_QUARTER, F32_FOUR),
            Command::Log { text } => text.as_str().as_bytes().len() <= 2048,
            Command::Overlay { key, text } => valid_id(key.as_str()) && text.as_str().as_bytes().len()
                <= 1024,
            Command::Cube { key, position, size, color } => valid_id(key.as_str()) && point(
                position,
            ) && size_ok(size) && color_ok(color),
            Command::Remove { key } => valid_id(key.as_str()),
            Command::Teleport { position, heading, .. } => point(position) && finite(*heading),
        };
        r
    }
}

/// Most commands one callback invocation may stage.
pub const MAX_STAGED: usize = 128;

/// The queue after staging `c`: appended when valid and the queue holds fewer than 128
/// commands, unchanged otherwise.
pub open spec fn staged_queue(queue: Seq<Command>, c: Command, vehicle_payload_valid: bool) -> Seq<Command> {
    if spec_command_valid(c, vehicle_payload_valid) && queue.len() < MAX_STAGED {
        queue.push(c)
    } else {
        queue
    }
}

/// Stages a command submitted by a running callback: an invalid command or a full queue
/// is refused and leaves the queue as it was; otherwise the command is appended.
pub fn stage(queue: &mut Vec<Command>, c: Command, vehicle_payload_valid: bool) -> (r: Result<
    (),
    String,
>)
    ensures
        r is Ok <==> spec_command_valid(c, vehicle_payload_valid) && old(queue)@.len() < MAX_STAGED,
        final(queue)@ == staged_queue(old(queue)@, c, vehicle_payload_valid),
        r matches Err(e) ==> (if spec_command_valid(c, vehicle_payload_valid) {
            e@ == "128 commands per callback maximum"@
        } else {
            e@ == "Invalid command arguments"@
        }),
{
    if !c.validate(vehicle_payload_valid) {
        return Err(String::from_str("Invalid command arguments"));
    }
    if queue.len() >= MAX_STAGED {
        return Err(String::from_str("128 commands per callback maximum"));
    }
    queue.push(c);
    Ok(())
}

} // verus!
