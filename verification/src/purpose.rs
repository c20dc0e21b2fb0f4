//! What the scan, batch, setting, command and manifest rules are for, stated over all inputs
//! in terms that do not go through the rules' own definitions.
use vstd::prelude::*;
use crate::batch::batch_refusal;
use crate::command::{spec_command_valid, spec_point, Command};
use crate::floatbits::{magnitude, magnitude64, spec_abs_at_most, spec_finite, spec_finite64, spec_le64, F64_SIGN};
use crate::manager::{has_id, package_with, step_for, step_needed, Found, Package, ScanStep};
use crate::manifest::{manifest_problem, Manifest};
use crate::paths::{separator, spec_relative_path_allowed};

verus! {

broadcast use vstd::set::group_set_axioms;

/// A scan installs every accepted package whose ID is not installed yet, whether or not it
/// is forced, and never reinstalls an installed package whose contents are unchanged.
pub proof fn law_scans_install_new_packages(ps: Seq<Package>, f: Found<()>, force: bool, now: u64)
    ensures
        !has_id(ps, f.id@) ==> step_needed(ps, f, force, now),
        !has_id(ps, f.id@) ==> step_for(ps, f) == (ScanStep::Add { id: f.id, hash: f.hash, data: f.data }),
        (package_with(ps, f.id@) matches Some(p) && p.fingerprint == f.hash) ==> !step_needed(ps, f, force, now),
{
}

/// The command touches an owned object (creates, updates or removes one).
pub open spec fn touches_objects(c: Command) -> bool {
    c is Overlay || c is Cube || c is Remove
}

/// The objects a package already owns matter only to its object commands: a batch without
/// them is refused or accepted alike whatever the package owns.
pub proof fn law_owned_objects_matter_only_to_object_commands(
    keys: Set<Seq<char>>,
    other_keys: Set<Seq<char>>,
    cmds: Seq<Command>,
    teleport_seen: bool,
    ready: Result<(), String>,
)
    requires
        forall|i: int| 0 <= i < cmds.len() ==> !touches_objects(#[trigger] cmds[i]),
    ensures
        batch_refusal(keys, cmds, teleport_seen, ready) == batch_refusal(other_keys, cmds, teleport_seen, ready),
    decreases cmds.len(),
{
    if cmds.len() > 0 {
        let rest = cmds.drop_first();
        assert(!touches_objects(cmds[0]));
        assert forall|i: int| 0 <= i < rest.len() implies !touches_objects(#[trigger] rest[i]) by {
            assert(rest[i] == cmds[i + 1]);
        }
        law_owned_objects_matter_only_to_object_commands(keys, other_keys, rest, teleport_seen, ready);
        law_owned_objects_matter_only_to_object_commands(keys, other_keys, rest, true, ready);
    }
}

/// A batch whose only command is a teleport is accepted exactly when teleporting is
/// possible, whatever objects the package owns.
pub proof fn law_a_lone_teleport_needs_only_readiness(
    keys: Set<Seq<char>>,
    position: [u32; 3],
    heading: u32,
    on_board: bool,
    ready: Result<(), String>,
)
    ensures
        batch_refusal(keys, seq![Command::Teleport { position, heading, on_board }], false, ready) == match ready {
            Ok(_) => None,
            Err(e) => Some(e@),
        },
{
    let cmds = seq![Command::Teleport { position, heading, on_board }];
    assert(cmds.drop_first() =~= Seq::<Command>::empty());
    assert(batch_refusal(keys, cmds.drop_first(), true, ready) is None);
}

/// The `f64` encoded by the bits is below zero.
pub open spec fn negative64(b: u64) -> bool {
    b >= F64_SIGN && magnitude64(b) != 0
}

/// For finite `f64` values the setting order is the order of the numbers: a negative value
/// lies below every value that is not negative, two negative values order by decreasing
/// magnitude, and two values that are not negative (either zero included) by increasing
/// magnitude.
pub proof fn law_setting_numbers_order_as_numbers(a: u64, b: u64)
    requires
        spec_finite64(a),
        spec_finite64(b),
    ensures
        spec_le64(a, b) <==> (if negative64(a) && negative64(b) {
            magnitude64(b) <= magnitude64(a)
        } else if negative64(a) {
            true
        } else if negative64(b) {
            false
        } else {
            magnitude64(a) <= magnitude64(b)
        }),
{
}

/// Finiteness of an `f32` is its exponent not being all ones, and neither finiteness nor the
/// absolute value depends on the sign.
pub proof fn law_f32_finiteness_is_the_exponent(b: u32)
    ensures
        spec_finite(b) == ((b & 0x7f80_0000u32) != 0x7f80_0000u32),
        spec_finite(b) == spec_finite(b ^ 0x8000_0000u32),
        magnitude(b) == magnitude(b ^ 0x8000_0000u32),
        forall|limit: u32| #[trigger] spec_abs_at_most(b, limit) == spec_abs_at_most(b ^ 0x8000_0000u32, limit),
{
    assert(b >= 0x8000_0000u32 ==> (((b & 0x7f80_0000u32) != 0x7f80_0000u32) == (((b - 0x8000_0000u32) as u32)
        < 0x7f80_0000u32))) by (bit_vector);
    assert(b < 0x8000_0000u32 ==> (((b & 0x7f80_0000u32) != 0x7f80_0000u32) == (b < 0x7f80_0000u32)))
        by (bit_vector);
    assert(b >= 0x8000_0000u32 ==> ((b ^ 0x8000_0000u32) < 0x8000_0000u32 && (b ^ 0x8000_0000u32) == (b
        - 0x8000_0000u32) as u32)) by (bit_vector);
    assert(b < 0x8000_0000u32 ==> ((b ^ 0x8000_0000u32) >= 0x8000_0000u32 && (((b ^ 0x8000_0000u32)
        - 0x8000_0000u32) as u32) == b)) by (bit_vector);
}

/// A teleport is valid exactly when its position is in bounds and its heading is a finite
/// `f32` (exponent not all ones), whatever the heading's sign.
pub proof fn law_teleports_take_any_finite_heading(
    position: [u32; 3],
    heading: u32,
    on_board: bool,
    vehicle_payload_valid: bool,
)
    ensures
        spec_command_valid(Command::Teleport { position, heading, on_board }, vehicle_payload_valid) == (
        spec_point(position) && (heading & 0x7f80_0000u32) != 0x7f80_0000u32),
        spec_command_valid(Command::Teleport { position, heading, on_board }, vehicle_payload_valid)
            == spec_command_valid(
            Command::Teleport { position, heading: heading ^ 0x8000_0000u32, on_board },
            vehicle_payload_valid,
        ),
{
    law_f32_finiteness_is_the_exponent(heading);
}

/// The entry affects the manifest check only through the relative-path rule: two manifests
/// that differ only in their entries, both non-empty paths the rule allows, are judged alike.
pub proof fn law_any_allowed_entry_will_do(m: Manifest, entry: String)
    requires
        m.entry@.len() > 0,
        spec_relative_path_allowed(m.entry@),
        entry@.len() > 0,
        spec_relative_path_allowed(entry@),
    ensures
        manifest_problem(m) == manifest_problem((Manifest { entry, ..m })),
{
}

/// A plain path component: non-empty, without separators or `:`, neither `.` nor `..`.
pub open spec fn plain_name(a: Seq<char>) -> bool {
    &&& a.len() > 0
    &&& forall|i: int| 0 <= i < a.len() ==> !separator(#[trigger] a[i]) && a[i] != ':'
    &&& a != seq!['.']
    &&& a != seq!['.', '.']
}

/// A file in a subfolder is a relative path the rules allow: `dir/name` for plain names,
/// such as an entry `scripts/main.lua`.
pub proof fn law_nested_files_are_relative_paths(dir: Seq<char>, name: Seq<char>)
    requires
        plain_name(dir),
        plain_name(name),
    ensures
        spec_relative_path_allowed(dir + seq!['/'] + name),
{
    let s = dir + seq!['/'] + name;
    let n = dir.len();
    assert(s.len() == n + 1 + name.len());
    assert forall|i: int| 0 <= i < s.len() implies (#[trigger] s[i] != ':') && (separator(s[i]) ==> i == n) by {
        if i < n {
            assert(s[i] == dir[i]);
        } else if i > n {
            assert(s[i] == name[i - n - 1]);
        }
    }
    assert(s[0] == dir[0]);
    if dir[0] == '.' {
        if n == 1 {
            assert(dir =~= seq!['.']);
        } else {
            assert(s[1] == dir[1]);
        }
    }
    assert forall|i: int| !crate::paths::parent_component_at(s, i) by {
        if crate::paths::parent_component_at(s, i) {
            if i == 0 {
                if n == 2 {
                    assert(dir =~= seq!['.', '.']);
                } else if n == 1 {
                    assert(s[1] == '/');
                } else {
                    assert(separator(s[2]));
                }
            } else {
                assert(separator(s[i - 1]));
                assert(i - 1 == n);
                let m = name.len();
                assert(s[i] == name[0]);
                assert(s[i + 1] == name[1]);
                if m == 2 {
                    assert(name =~= seq!['.', '.']);
                } else {
                    assert(separator(s[i + 2]));
                }
            }
        }
    }
    assert(!s.contains(':'));
}

/// A package holds at most 64 objects: with at most 64 owned keys, a batch that shows one
/// text is refused exactly when its key is new and 64 keys are already owned; updating an
/// owned key is never refused for the number of objects.
pub proof fn law_object_cap_counts_new_keys(
    keys: Set<Seq<char>>,
    key: String,
    text: String,
    ready: Result<(), String>,
)
    requires
        keys.finite(),
        keys.len() <= 64,
    ensures
        batch_refusal(keys, seq![Command::Overlay { key, text }], false, ready) is Some <==> (!keys.contains(
            key@,
        ) && keys.len() >= 64),
{
    let cmds = seq![Command::Overlay { key, text }];
    assert(cmds.drop_first() =~= Seq::<Command>::empty());
    assert(batch_refusal(keys.insert(key@), cmds.drop_first(), false, ready) is None);
    if keys.contains(key@) {
        assert(keys.insert(key@) =~= keys);
    } else {
        assert(keys.insert(key@).len() == keys.len() + 1);
    }
}

/// Whether a position is in bounds does not depend on the signs of its coordinates.
pub proof fn law_positions_bound_absolute_values(p: [u32; 3])
    ensures
        spec_point(p) == spec_point([p[0] ^ 0x8000_0000u32, p[1] ^ 0x8000_0000u32, p[2] ^ 0x8000_0000u32]),
        spec_point(p) == spec_point([p[0] ^ 0x8000_0000u32, p[1], p[2]]),
{
    law_f32_finiteness_is_the_exponent(p[0]);
    law_f32_finiteness_is_the_exponent(p[1]);
    law_f32_finiteness_is_the_exponent(p[2]);
}

} // verus!
