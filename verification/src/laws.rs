//! Properties that hold across the library's operations.
use vstd::prelude::*;
use crate::batch::{application_order, batch_refusal};
use crate::observe::transitions;
use crate::command::{spec_command_valid, staged_queue, Command, MAX_STAGED};
use crate::manager::{
    has_id, package_with, since_after_scan, step_for, step_needed, ScanStep,
    value_index, value_set, accepts_id, admitted, elapsed, listed_id, not_owned_by, occurrences, pending_after, refresh_due, removal_due,
    since_of, without_owner, Found, Package,
};
use crate::settings::{merged_value, settings_merged, spec_accepts, spec_setting_valid, value_of, Setting, SettingValue};

verus! {

broadcast use vstd::seq_lib::group_seq_properties, vstd::seq_lib::group_to_multiset_ensures;

/// Staging never lets a callback's queue grow past 128 commands, and the queue only ever
/// holds commands that passed validation.
pub proof fn law_staging_keeps_queue_bounded_and_valid(
    queue: Seq<Command>,
    c: Command,
    vehicle_payload_valid: bool,
    valid: spec_fn(Command) -> bool,
)
    requires
        queue.len() <= MAX_STAGED,
        valid == (|x: Command| exists|v: bool| spec_command_valid(x, v)),
        forall|i: int| 0 <= i < queue.len() ==> valid(#[trigger] queue[i]),
    ensures
        staged_queue(queue, c, vehicle_payload_valid).len() <= MAX_STAGED,
        forall|i: int| 0 <= i < staged_queue(queue, c, vehicle_payload_valid).len() ==> valid(
            #[trigger] staged_queue(queue, c, vehicle_payload_valid)[i],
        ),
{
    let after = staged_queue(queue, c, vehicle_payload_valid);
    assert forall|i: int| 0 <= i < after.len() implies valid(#[trigger] after[i]) by {
        if i == queue.len() {
            assert(spec_command_valid(c, vehicle_payload_valid));
        } else {
            assert(after[i] == queue[i]);
        }
    }
}

/// A stopped package leaves no staged command behind, and every other owner's commands stay
/// queued in their order.
pub proof fn law_stopping_discards_only_the_owners_commands(cs: Seq<(String, Command)>, id: Seq<char>)
    ensures
        forall|k: int| 0 <= k < without_owner(cs, id).len() ==> (#[trigger] without_owner(cs, id)[k]).0@ != id,
        forall|k: int| 0 <= k < cs.len() && (#[trigger] cs[k]).0@ != id ==> without_owner(cs, id).contains(cs[k]),
        forall|k: int| 0 <= k < without_owner(cs, id).len() ==> cs.contains(#[trigger] without_owner(cs, id)[k]),
{
    let pred = not_owned_by(id);
    assert forall|k: int| 0 <= k < without_owner(cs, id).len() implies (#[trigger] without_owner(cs, id)[k]).0@ != id by {
        cs.lemma_filter_pred(pred, k);
    }
    assert forall|k: int| 0 <= k < cs.len() && (#[trigger] cs[k]).0@ != id implies without_owner(cs, id).contains(cs[k]) by {
        cs.lemma_filter_contains(pred, k);
    }
    assert forall|k: int| 0 <= k < without_owner(cs, id).len() implies cs.contains(#[trigger] without_owner(cs, id)[k]) by {
        let x = without_owner(cs, id)[k];
        assert(without_owner(cs, id).contains(x));
        cs.lemma_filter_contains_rev(pred, x);
    }
}

/// When several found packages carry one ID, none of them is admitted: all copies are
/// rejected, whichever comes first.
pub proof fn law_duplicate_ids_reject_every_copy<P>(found: Seq<Found<P>>, i: int, j: int, f: Found<P>)
    requires
        0 <= i < j < found.len(),
        found[i].id@ == found[j].id@,
        f.id@ == found[i].id@,
    ensures
        !admitted(found, f),
{
    lemma_two(found, i, j);
}

proof fn lemma_one<P>(found: Seq<Found<P>>, i: int)
    requires
        0 <= i < found.len(),
    ensures
        occurrences(found, found[i].id@) >= 1,
    decreases found.len(),
{
    if i < found.len() - 1 {
        lemma_one(found.drop_last(), i);
    }
}

proof fn lemma_two<P>(found: Seq<Found<P>>, i: int, j: int)
    requires
        0 <= i < j < found.len(),
        found[i].id@ == found[j].id@,
    ensures
        occurrences(found, found[i].id@) >= 2,
    decreases found.len(),
{
    if j < found.len() - 1 {
        lemma_two(found.drop_last(), i, j);
    } else {
        lemma_one(found.drop_last(), i);
    }
}

/// An installed package that the scan accepted is never uninstalled by it.
pub proof fn law_accepted_packages_stay(
    p: Package,
    accepted: Seq<Found<()>>,
    missing: Seq<String>,
    force: bool,
    now: u64,
    since: Seq<(String, u64)>,
)
    requires
        accepts_id(accepted, p.id@),
    ensures
        !removal_due(p, accepted, missing, force, now, since),
{
}

/// A package whose root is gone is uninstalled at the next scan that does not accept it.
pub proof fn law_deleted_packages_retire_immediately(
    p: Package,
    accepted: Seq<Found<()>>,
    missing: Seq<String>,
    force: bool,
    now: u64,
    since: Seq<(String, u64)>,
)
    requires
        !accepts_id(accepted, p.id@),
        listed_id(missing, p.id@),
    ensures
        removal_due(p, accepted, missing, force, now, since),
{
}

/// An invalid package whose root still exists gets a grace interval: unless the scan is
/// forced, it stays installed while less than 750 ms have passed since it was first recorded
/// missing, and at the scan that first records it.
pub proof fn law_invalid_packages_get_grace(
    p: Package,
    accepted: Seq<Found<()>>,
    missing: Seq<String>,
    now: u64,
    since: Seq<(String, u64)>,
)
    requires
        !listed_id(missing, p.id@),
        match since_of(since, p.id@) {
            None => true,
            Some(t) => elapsed(now, t) < 750,
        },
    ensures
        !removal_due(p, accepted, missing, false, now, since),
{
}

/// A package whose contents did not change is never reinstalled, and an unforced reinstall
/// happens only after the same new contents were seen for 750 ms.
pub proof fn law_reinstall_waits_for_settled_contents(p: Package, hash: u64, now: u64)
    ensures
        p.fingerprint == hash ==> !refresh_due(p, hash, true, now),
        refresh_due(p, hash, false, now) ==> (p.pending matches Some(pp) && pp.0 == hash && elapsed(
            now,
            pp.1,
        ) >= 750),
{
}

/// A forced scan (Rescan) bypasses both waits: it reinstalls every package whose contents
/// changed and uninstalls every installed package it did not accept.
pub proof fn law_forced_scans_bypass_debounce(
    p: Package,
    hash: u64,
    accepted: Seq<Found<()>>,
    missing: Seq<String>,
    now: u64,
    since: Seq<(String, u64)>,
)
    ensures
        refresh_due(p, hash, true, now) == (p.fingerprint != hash),
        removal_due(p, accepted, missing, true, now, since) == !accepts_id(accepted, p.id@),
{
}

/// A newly seen change is recorded as pending from the moment it is seen, so the scan that
/// sees it does not reinstall the package unless forced.
pub proof fn law_new_changes_start_pending(p: Package, hash: u64, now: u64)
    requires
        p.fingerprint != hash,
        !(p.pending matches Some(pp) && pp.0 == hash),
    ensures
        pending_after(p, hash, now) == Some((hash, now)),
        !refresh_due(Package { pending: pending_after(p, hash, now), ..p }, hash, false, now),
{
}

/// A setting change reads back: after a value is recorded for a key, that key gives the new
/// value and every other key gives what it gave before.
pub proof fn law_setting_reads_back(
    before: Seq<(String, SettingValue)>,
    after: Seq<(String, SettingValue)>,
    key: Seq<char>,
    v: SettingValue,
)
    requires
        value_set(before, after, key, v),
    ensures
        value_of(after, key) == Some(v),
        forall|other: Seq<char>| other != key ==> #[trigger] value_of(after, other) == value_of(before, other),
{
    let i = value_index(before, key);
    lemma_value_index(before, key);
    if i >= 0 {
        lemma_update_reads(before, i, key, v);
    } else {
        lemma_push_reads(before, after, key, v);
    }
}

proof fn lemma_value_index(values: Seq<(String, SettingValue)>, key: Seq<char>)
    ensures
        -1 <= value_index(values, key) < values.len(),
        value_index(values, key) >= 0 ==> values[value_index(values, key)].0@ == key,
        value_index(values, key) < 0 ==> value_of(values, key) is None,
    decreases values.len(),
{
    if values.len() > 0 {
        lemma_value_index(values.drop_first(), key);
    }
}

proof fn lemma_update_reads(values: Seq<(String, SettingValue)>, i: int, key: Seq<char>, v: SettingValue)
    requires
        i == value_index(values, key),
        0 <= i < values.len(),
        values[i].0@ == key,
    ensures
        value_of(values.update(i, (values[i].0, v)), key) == Some(v),
        forall|other: Seq<char>| other != key ==> #[trigger] value_of(values.update(i, (values[i].0, v)), other)
            == value_of(values, other),
    decreases values.len(),
{
    let after = values.update(i, (values[i].0, v));
    if i > 0 {
        let rest = values.drop_first();
        assert(values[0].0@ != key);
        lemma_update_reads(rest, i - 1, key, v);
        assert(after.drop_first() =~= rest.update(i - 1, (rest[i - 1].0, v)));
        assert forall|other: Seq<char>| other != key implies #[trigger] value_of(after, other) == value_of(values, other) by {
            assert(after[0] == values[0]);
            assert(value_of(rest.update(i - 1, (rest[i - 1].0, v)), other) == value_of(rest, other));
        }
    } else {
        assert(after.drop_first() =~= values.drop_first());
        assert(after[0].0@ == key);
        assert forall|other: Seq<char>| other != key implies #[trigger] value_of(after, other) == value_of(values, other) by {
            assert(after[0].0@ != other);
            assert(values[0].0@ != other);
        }
    }
}

proof fn lemma_push_reads(before: Seq<(String, SettingValue)>, after: Seq<(String, SettingValue)>, key: Seq<char>, v: SettingValue)
    requires
        value_of(before, key) is None,
        after.len() == before.len() + 1,
        after.drop_last() == before,
        after.last().0@ == key,
        after.last().1 == v,
    ensures
        value_of(after, key) == Some(v),
        forall|other: Seq<char>| other != key ==> #[trigger] value_of(after, other) == value_of(before, other),
    decreases before.len(),
{
    if before.len() > 0 {
        let a2 = after.drop_first();
        let b2 = before.drop_first();
        assert(a2.drop_last() =~= b2);
        lemma_push_reads(b2, a2, key, v);
        assert(after[0] == before[0]);
        assert forall|other: Seq<char>| other != key implies #[trigger] value_of(after, other) == value_of(before, other) by {
            assert(value_of(a2, other) == value_of(b2, other));
        }
    } else {
        assert(after.drop_first() =~= Seq::<(String, SettingValue)>::empty());
        assert(after[0] == after.last());
        assert forall|other: Seq<char>| other != key implies #[trigger] value_of(after, other) == value_of(before, other) by {
            assert(after[0].0@ != other);
        }
    }
}

/// Merged setting values are always accepted by their schema when the schema is well formed.
pub proof fn law_merged_settings_are_accepted(
    values: Seq<(String, SettingValue)>,
    schema: Seq<(String, Setting)>,
    saved: Seq<(String, SettingValue)>,
)
    requires
        settings_merged(values, schema, saved),
        forall|k: int| 0 <= k < schema.len() ==> spec_setting_valid(#[trigger] schema[k].1),
    ensures
        forall|k: int| 0 <= k < schema.len() ==> spec_accepts(#[trigger] schema[k].1, values[k].1),
{
    assert forall|k: int| 0 <= k < schema.len() implies spec_accepts(#[trigger] schema[k].1, values[k].1) by {
        assert(spec_setting_valid(schema[k].1));
        assert(values[k].0 == schema[k].0);
    }
}

/// The value recorded for a key that stands at `i` and nowhere before it.
proof fn lemma_value_of_at(values: Seq<(String, SettingValue)>, i: int)
    requires
        0 <= i < values.len(),
        forall|j: int| 0 <= j < i ==> (#[trigger] values[j]).0@ != values[i].0@,
    ensures
        value_of(values, values[i].0@) == Some(values[i].1),
    decreases i,
{
    if i > 0 {
        lemma_value_of_at(values.drop_first(), i - 1);
        assert(values.drop_first()[i - 1] == values[i]);
    }
}

/// Merging values that were already merged into the same schema, whose keys are distinct,
/// changes nothing: reloading a package keeps its settings.
pub proof fn law_merging_is_stable(
    first: Seq<(String, SettingValue)>,
    second: Seq<(String, SettingValue)>,
    schema: Seq<(String, Setting)>,
    saved: Seq<(String, SettingValue)>,
)
    requires
        settings_merged(first, schema, saved),
        settings_merged(second, schema, first),
        forall|a: int, b: int| 0 <= a < b < schema.len() ==> (#[trigger] schema[a]).0@ != (#[trigger] schema[b]).0@,
    ensures
        second == first,
{
    assert forall|k: int| 0 <= k < schema.len() implies #[trigger] second[k] == first[k] by {
        assert forall|j: int| 0 <= j < k implies (#[trigger] first[j]).0@ != first[k].0@ by {
            assert(first[j].0 == schema[j].0);
            assert(first[k].0 == schema[k].0);
        }
        lemma_value_of_at(first, k);
        assert(first[k].0 == schema[k].0);
        assert(merged_value(schema[k].1, Some(first[k].1)) == first[k].1);
    }
    assert(second =~= first);
}

/// Applying a batch neither drops nor duplicates commands, and a teleport comes after every
/// other command.
pub proof fn law_batches_keep_commands_and_defer_teleport(cmds: Seq<Command>)
    ensures
        application_order(cmds).to_multiset() == cmds.to_multiset(),
        forall|i: int, j: int| 0 <= i < j < application_order(cmds).len() && (#[trigger] application_order(cmds)[i]) is Teleport
            ==> (#[trigger] application_order(cmds)[j]) is Teleport,
    decreases cmds.len(),
{
    let tp = |c: Command| c is Teleport;
    let ntp = |c: Command| !(c is Teleport);
    let a = cmds.filter(ntp);
    let b = cmds.filter(tp);
    assert forall|i: int, j: int| 0 <= i < j < application_order(cmds).len() && (#[trigger] application_order(cmds)[i]) is Teleport
        implies (#[trigger] application_order(cmds)[j]) is Teleport by {
        if i < a.len() {
            cmds.lemma_filter_pred(ntp, i);
        }
        if j >= a.len() {
            cmds.lemma_filter_pred(tp, j - a.len());
        } else {
            cmds.lemma_filter_pred(ntp, j);
            cmds.lemma_filter_pred(ntp, i);
        }
    }
    lemma_split_multiset(cmds);
}

proof fn lemma_split_multiset(cmds: Seq<Command>)
    ensures
        (cmds.filter(|c: Command| !(c is Teleport)) + cmds.filter(|c: Command| c is Teleport)).to_multiset()
            == cmds.to_multiset(),
    decreases cmds.len(),
{
    let tp = |c: Command| c is Teleport;
    let ntp = |c: Command| !(c is Teleport);
    vstd::seq_lib::lemma_multiset_commutative(cmds.filter(ntp), cmds.filter(tp));
    if cmds.len() > 0 {
        let rest = cmds.drop_last();
        let x = cmds.last();
        lemma_split_multiset(rest);
        assert(cmds == rest.push(x));
        broadcast use Seq::lemma_filter_push;
        vstd::seq_lib::lemma_multiset_commutative(rest.filter(ntp), rest.filter(tp));
        if x is Teleport {
            assert(cmds.filter(tp) == rest.filter(tp).push(x));
            assert(cmds.filter(ntp) == rest.filter(ntp));
            assert(rest.filter(ntp) + rest.filter(tp).push(x) =~= (rest.filter(ntp) + rest.filter(tp)).push(x));
        } else {
            assert(cmds.filter(ntp) == rest.filter(ntp).push(x));
            assert(cmds.filter(tp) == rest.filter(tp));
            vstd::seq_lib::lemma_multiset_commutative(rest.filter(ntp).push(x), rest.filter(tp));
            vstd::seq_lib::lemma_multiset_commutative(rest.filter(tp), rest.filter(ntp).push(x));
            assert(rest.filter(tp) + rest.filter(ntp).push(x) =~= (rest.filter(tp) + rest.filter(ntp)).push(x));
            vstd::seq_lib::lemma_multiset_commutative(rest.filter(tp), rest.filter(ntp));
        }
    } else {
        assert(cmds.filter(ntp) =~= Seq::<Command>::empty());
        assert(cmds.filter(tp) =~= Seq::<Command>::empty());
        assert(cmds.filter(ntp) + cmds.filter(tp) =~= cmds);
    }
}

/// An accepted batch holds at most one teleport.
pub proof fn law_accepted_batches_teleport_at_most_once(
    keys: Set<Seq<char>>,
    cmds: Seq<Command>,
    teleport_seen: bool,
    ready: Result<(), String>,
)
    requires
        batch_refusal(keys, cmds, teleport_seen, ready) is None,
    ensures
        cmds.filter(|c: Command| c is Teleport).len() <= (if teleport_seen { 0int } else { 1int }),
    decreases cmds.len(),
{
    let tp = |c: Command| c is Teleport;
    if cmds.len() > 0 {
        let rest = cmds.drop_first();
        assert(cmds == seq![cmds[0]] + rest);
        Seq::filter_distributes_over_add(seq![cmds[0]], rest, tp);
        reveal_with_fuel(Seq::filter, 2);
        assert(seq![cmds[0]].drop_last() =~= Seq::<Command>::empty());
        match cmds[0] {
            Command::Remove { key } => law_accepted_batches_teleport_at_most_once(keys.remove(key@), rest, teleport_seen, ready),
            Command::Overlay { key, .. } => law_accepted_batches_teleport_at_most_once(keys.insert(key@), rest, teleport_seen, ready),
            Command::Cube { key, .. } => law_accepted_batches_teleport_at_most_once(keys.insert(key@), rest, teleport_seen, ready),
            Command::Teleport { .. } => law_accepted_batches_teleport_at_most_once(keys, rest, true, ready),
            _ => law_accepted_batches_teleport_at_most_once(keys, rest, teleport_seen, ready),
        }
    } else {
        assert(cmds.filter(tp) =~= Seq::<Command>::empty());
    }
}

/// Transitions are sampled edges: observing the same player again reports nothing, and every
/// reported transition names a flag or state that differs between the two observations.
pub proof fn law_observations_report_only_changes(
    bailing: bool,
    state: u32,
    grinding: bool,
    now_bailing: bool,
    now_state: u32,
    now_grinding: bool,
)
    ensures
        transitions(bailing, state, grinding, bailing, state, grinding).len() == 0,
        transitions(bailing, state, grinding, now_bailing, now_state, now_grinding).len() == (if now_bailing
            != bailing {
            1int
        } else {
            0int
        }) + (if now_state != state {
            1int
        } else {
            0int
        }) + (if now_grinding != grinding {
            1int
        } else {
            0int
        }),
{
}

/// The grace interval restarts whenever a package is accepted or installed anew: a scan keeps
/// no missing-since record for an accepted ID, for an ID it uninstalls or for one that is not
/// installed, and the record it keeps for a package that stays is the earlier one or the time
/// of this scan, less than 750 ms old. (Installing and uninstalling also forget the record.)
pub proof fn law_grace_restarts_after_acceptance(
    ps: Seq<Package>,
    accepted: Seq<Found<()>>,
    missing: Seq<String>,
    force: bool,
    now: u64,
    since: Seq<(String, u64)>,
    id: Seq<char>,
)
    ensures
        accepts_id(accepted, id) ==> since_after_scan(ps, accepted, missing, force, now, since, id) is None,
        !has_id(ps, id) ==> since_after_scan(ps, accepted, missing, force, now, since, id) is None,
        (package_with(ps, id) matches Some(p) && removal_due(p, accepted, missing, force, now, since))
            ==> since_after_scan(ps, accepted, missing, force, now, since, id) is None,
        since_after_scan(ps, accepted, missing, force, now, since, id) matches Some(t) ==> ((since_of(since, id)
            == Some(t) || t == now) && elapsed(now, t) < 750),
{
}

/// A scan reinstalls an installed package exactly when its changed contents are due (see
/// `refresh_due`), and it reinstalls it in place rather than adding it again.
pub proof fn law_installed_packages_reinstall_only_when_due(ps: Seq<Package>, f: Found<()>, force: bool, now: u64)
    requires
        has_id(ps, f.id@),
    ensures
        step_needed(ps, f, force, now) == refresh_due(package_with(ps, f.id@)->0, f.hash, force, now),
        step_for(ps, f) == (ScanStep::Replace { id: f.id, hash: f.hash, data: f.data }),
{
}

/// Across scans, an installed package that scans keep finding invalid (neither accepted nor
/// gone from disk, no forced scan) stays for 750 ms: the first such scan, at `times[0]`,
/// records it missing, and until it is uninstalled every later scan is due to uninstall it
/// exactly when at least 750 ms have passed since `times[0]`. `sinces[j]` is the
/// missing-since list before the scan at `times[j]`.
pub proof fn law_grace_spans_scans(
    pss: Seq<Seq<Package>>,
    accs: Seq<Seq<Found<()>>>,
    misses: Seq<Seq<String>>,
    sinces: Seq<Seq<(String, u64)>>,
    times: Seq<u64>,
    id: Seq<char>,
    k: int,
)
    requires
        0 <= k < times.len(),
        pss.len() == times.len(),
        accs.len() == times.len(),
        misses.len() == times.len(),
        sinces.len() == times.len(),
        since_of(sinces[0], id) is None,
        forall|j: int| 0 <= j < times.len() ==> has_id(#[trigger] pss[j], id) && !accepts_id(accs[j], id)
            && !listed_id(misses[j], id),
        forall|j: int| 0 <= j < times.len() - 1 ==> since_of(#[trigger] sinces[j + 1], id) == since_after_scan(
            pss[j],
            accs[j],
            misses[j],
            false,
            times[j],
            sinces[j],
            id,
        ),
        forall|j: int| 0 <= j < times.len() - 1 ==> #[trigger] times[j] <= times[j + 1],
        forall|j: int| 0 <= j < k ==> #[trigger] times[j] - times[0] < 750,
    ensures
        times[0] <= times[k],
        since_of(sinces[k], id) == (if k == 0 {
            None
        } else {
            Some(times[0])
        }),
        removal_due(package_with(pss[k], id)->0, accs[k], misses[k], false, times[k], sinces[k]) <==> times[k]
            - times[0] >= 750,
    decreases k,
{
    if k > 0 {
        law_grace_spans_scans(pss, accs, misses, sinces, times, id, k - 1);
        assert(times[k - 1] <= times[k]);
        assert(has_id(pss[k - 1], id));
        assert(since_of(sinces[k], id) == since_after_scan(pss[k - 1], accs[k - 1], misses[k - 1], false, times[k - 1], sinces[k - 1], id));
        if k > 1 {
            assert(times[k - 1] - times[0] < 750);
        }
    }
    assert(has_id(pss[k], id));
    let i = choose|i: int| 0 <= i < pss[k].len() && #[trigger] pss[k][i].id@ == id;
    assert(package_with(pss[k], id)->0.id@ == id);
}

/// Across scans, a package whose contents changed to `h` is reinstalled only once the same
/// contents have been seen for 750 ms: the first unforced scan that sees `h`, at `times[0]`,
/// records it pending, and at every later scan until the reinstall the package is due for
/// one exactly when at least 750 ms have passed since `times[0]`. `ps[j]` is the package
/// before the scan at `times[j]`.
pub proof fn law_settled_contents_span_scans(ps: Seq<Package>, h: u64, times: Seq<u64>, k: int)
    requires
        0 <= k < times.len(),
        ps.len() == times.len(),
        ps[0].fingerprint != h,
        !(ps[0].pending matches Some(pp) && pp.0 == h),
        forall|j: int| 0 <= j < times.len() - 1 ==> #[trigger] ps[j + 1] == (Package {
            pending: pending_after(ps[j], h, times[j]),
            ..ps[j]
        }),
        forall|j: int| 0 <= j < times.len() - 1 ==> #[trigger] times[j] <= times[j + 1],
        forall|j: int| 0 <= j < k ==> #[trigger] times[j] - times[0] < 750,
    ensures
        times[0] <= times[k],
        ps[k].fingerprint == ps[0].fingerprint,
        k > 0 ==> ps[k].pending == Some((h, times[0])),
        refresh_due(ps[k], h, false, times[k]) <==> (k > 0 && times[k] - times[0] >= 750),
    decreases k,
{
    if k > 0 {
        law_settled_contents_span_scans(ps, h, times, k - 1);
        assert(ps[k] == (Package { pending: pending_after(ps[k - 1], h, times[k - 1]), ..ps[k - 1] }));
        assert(times[k - 1] <= times[k]);
    }
}

} // verus!
