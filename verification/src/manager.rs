//! Bookkeeping of the installed packages: which exist, which are enabled and running, the
//! commands their callbacks staged, and the owners whose resources must be retired.
//! Running a package's script happens outside; its outcomes are handed to these methods.
use vstd::prelude::*;
use crate::command::Command;
use crate::manifest::{manifest_problem, Manifest};
use crate::settings::{merge_settings, settings_merged, spec_accepts, value_of, Setting, SettingValue};
use crate::text::{chars_le, lemma_chars_le_antisymmetric, lemma_chars_le_total, lemma_chars_le_transitive};

verus! {

broadcast use vstd::seq_lib::group_seq_properties;

/// One installed package.
#[derive(Debug)]
pub struct Package {
    /// The manifest ID.
    pub id: String,
    /// The manifest the package was installed from.
    pub manifest: Manifest,
    /// The current setting values, keyed like the manifest's settings schema.
    pub settings: Vec<(String, SettingValue)>,
    /// The last load or callback error, shown until the package runs again.
    pub error: Option<String>,
    /// The saved enable preference.
    pub enabled: bool,
    /// A script state exists for the package.
    pub running: bool,
    /// Hash of the package contents when it was installed.
    pub fingerprint: u64,
    /// A changed hash seen on disk and the time (ms) it was first seen.
    pub pending: Option<(u64, u64)>,
}

impl Package {
    /// The hash of the contents the package was installed from.
    pub fn content_fingerprint(&self) -> (r: u64)
        ensures
            r == self.fingerprint,
    {
        self.fingerprint
    }

    /// Whether a script state exists for the package.
    pub fn running(&self) -> (r: bool)
        ensures
            r == self.running,
    {
        self.running
    }
}

/// What is kept for a package outside it: its enable preference and its setting values.
#[derive(Debug)]
pub struct Preferences {
    pub enabled: bool,
    pub values: Vec<(String, SettingValue)>,
}

impl Default for Preferences {
    /// Nothing saved: disabled, no values.
    fn default() -> (p: Self)
        ensures
            !p.enabled,
            p.values@.len() == 0,
    {
        Preferences { enabled: false, values: Vec::new() }
    }
}

/// What the host does after a setting changed.
#[derive(Debug)]
pub enum AfterSetting {
    /// The package runs: install these values (all its current settings) as its
    /// `sdk.settings`, deliver `on_settings` with the key and the new value, then save its
    /// preferences.
    Notify { values: Vec<(String, SettingValue)> },
    /// The package is stopped: save its preferences.
    Save,
}

/// `a` is what is due after a setting of `q`, as the package now stands, changed.
pub open spec fn after_setting_due(a: AfterSetting, q: Package) -> bool {
    match a {
        AfterSetting::Notify { values } => q.running && values@ == q.settings@,
        AfterSetting::Save => !q.running,
    }
}

/// A copy of setting values.
fn copy_values(v: &Vec<(String, SettingValue)>) -> (r: Vec<(String, SettingValue)>)
    ensures
        r@ == v@,
{
    let mut values: Vec<(String, SettingValue)> = Vec::new();
    let mut j: usize = 0;
    while j < v.len()
        invariant
            j <= v@.len(),
            values@ == v@.take(j as int),
        decreases v@.len() - j,
    {
        values.push((v[j].0.clone(), v[j].1.duplicate()));
        assert(v@.take(j + 1) =~= v@.take(j as int).push(v@[j as int]));
        j = j + 1;
    }
    assert(v@.take(j as int) =~= v@);
    values
}

/// `a` precedes `b` strictly.
pub open spec fn id_lt(a: Seq<char>, b: Seq<char>) -> bool {
    chars_le(a, b) && a != b
}

/// Package IDs strictly ascend, so every ID occurs once.
pub open spec fn ascending_ids(ps: Seq<Package>) -> bool {
    forall|i: int, j: int| 0 <= i < j < ps.len() ==> id_lt(#[trigger] ps[i].id@, #[trigger] ps[j].id@)
}

/// The values hold, in schema order, one value per schema key, each accepted by its setting
/// or that setting's default.
pub open spec fn settings_fit(values: Seq<(String, SettingValue)>, schema: Seq<(String, Setting)>) -> bool {
    &&& values.len() == schema.len()
    &&& forall|i: int| 0 <= i < schema.len() ==> {
        &&& #[trigger] values[i].0 == schema[i].0
        &&& (spec_accepts(schema[i].1, values[i].1) || values[i].1 == schema[i].1.default)
    }
}

/// The package is keyed by its manifest's ID, its manifest follows the manifest rules, its
/// setting values fit the manifest's schema, and it runs only while enabled.
pub open spec fn installable(p: Package) -> bool {
    &&& p.manifest.id@ == p.id@
    &&& manifest_problem(p.manifest) is None
    &&& settings_fit(p.settings@, p.manifest.settings@)
    &&& (p.running ==> p.enabled)
}

/// Merged values fit their schema.
proof fn lemma_merged_fit(values: Seq<(String, SettingValue)>, schema: Seq<(String, Setting)>, saved: Seq<(String, SettingValue)>)
    requires
        settings_merged(values, schema, saved),
    ensures
        settings_fit(values, schema),
{
    assert forall|i: int| 0 <= i < schema.len() implies {
        &&& #[trigger] values[i].0 == schema[i].0
        &&& (spec_accepts(schema[i].1, values[i].1) || values[i].1 == schema[i].1.default)
    } by {
        assert(values[i].0 == schema[i].0);
    }
}

/// With values keyed like the schema, the first value of a key stands where the schema
/// declares it.
proof fn lemma_fit_index(values: Seq<(String, SettingValue)>, schema: Seq<(String, Setting)>, key: Seq<char>)
    requires
        values.len() == schema.len(),
        forall|i: int| 0 <= i < schema.len() ==> #[trigger] values[i].0 == schema[i].0,
    ensures
        schema_of(schema, key) is Some ==> 0 <= value_index(values, key) < values.len() && schema_of(
            schema,
            key,
        ) == Some(schema[value_index(values, key)].1),
        schema_of(schema, key) is None ==> value_index(values, key) < 0,
    decreases values.len(),
{
    if values.len() > 0 {
        assert(values[0].0 == schema[0].0);
        let v2 = values.drop_first();
        let s2 = schema.drop_first();
        assert forall|i: int| 0 <= i < s2.len() implies #[trigger] v2[i].0 == s2[i].0 by {
            assert(values[i + 1].0 == schema[i + 1].0);
        }
        lemma_fit_index(v2, s2, key);
    }
}

/// An installed package with the ID is enabled.
pub open spec fn enabled_package(ps: Seq<Package>, id: Seq<char>) -> bool {
    exists|i: int| 0 <= i < ps.len() && #[trigger] ps[i].id@ == id && ps[i].enabled
}

/// Every package is installable.
pub open spec fn all_installable(ps: Seq<Package>) -> bool {
    forall|i: int| 0 <= i < ps.len() ==> installable(#[trigger] ps[i])
}

/// The batch's owner is installed and running.
pub open spec fn running_owner(ps: Seq<Package>) -> spec_fn((String, Vec<Command>)) -> bool {
    |b: (String, Vec<Command>)| exists|i: int| 0 <= i < ps.len() && #[trigger] ps[i].id@ == b.0@ && ps[i].running
}

/// Some package has the ID.
pub open spec fn has_id(ps: Seq<Package>, id: Seq<char>) -> bool {
    exists|i: int| 0 <= i < ps.len() && #[trigger] ps[i].id@ == id
}

/// The commands left after dropping those owned by `id`.
pub open spec fn without_owner(cs: Seq<(String, Command)>, id: Seq<char>) -> Seq<(String, Command)> {
    cs.filter(not_owned_by(id))
}

/// Whether a staged command belongs to an owner other than `id`.
pub open spec fn not_owned_by(id: Seq<char>) -> spec_fn((String, Command)) -> bool {
    |c: (String, Command)| c.0@ != id
}

/// A package found on disk by a scan: its manifest ID, the hash of its contents and what the
/// host keeps for it (manifest, root, ...), which the registry only passes along.
pub struct Found<P> {
    pub id: String,
    pub hash: u64,
    pub data: P,
}

/// How many found packages carry the ID.
pub open spec fn occurrences<P>(found: Seq<Found<P>>, id: Seq<char>) -> nat
    decreases found.len(),
{
    if found.len() == 0 {
        0
    } else {
        occurrences(found.drop_last(), id) + if found.last().id@ == id {
            1nat
        } else {
            0nat
        }
    }
}

/// A found package is admitted when no other found package carries its ID.
pub open spec fn admitted<P>(found: Seq<Found<P>>, f: Found<P>) -> bool {
    found.contains(f) && occurrences(found, f.id@) == 1
}

/// Found packages with strictly ascending IDs.
pub open spec fn ascending_found<P>(s: Seq<Found<P>>) -> bool {
    forall|i: int, j: int| 0 <= i < j < s.len() ==> id_lt(#[trigger] s[i].id@, #[trigger] s[j].id@)
}

/// Strings in strictly ascending order.
pub open spec fn ascending_strings(s: Seq<String>) -> bool {
    forall|i: int, j: int| 0 <= i < j < s.len() ==> id_lt(#[trigger] s[i]@, #[trigger] s[j]@)
}

/// The diagnostic for an ID carried by several found packages.
pub open spec fn duplicate_message(id: Seq<char>) -> Seq<char> {
    "Duplicate mod ID "@ + id + ": all copies rejected"@
}

/// Occurrences in a prefix grow by the element that extends it.
proof fn lemma_occurrences_take<P>(found: Seq<Found<P>>, i: int, id: Seq<char>)
    requires
        0 <= i < found.len(),
    ensures
        occurrences(found.take(i + 1), id) == occurrences(found.take(i), id) + if found[i].id@
            == id {
            1nat
        } else {
            0nat
        },
{
    assert(found.take(i + 1).drop_last() =~= found.take(i));
}

/// Each element carrying the ID counts.
proof fn lemma_occurrence_at<P>(found: Seq<Found<P>>, i: int)
    requires
        0 <= i < found.len(),
    ensures
        occurrences(found, found[i].id@) >= 1,
    decreases found.len(),
{
    if i < found.len() - 1 {
        lemma_occurrence_at(found.drop_last(), i);
    }
}

/// Two elements carrying the ID count twice.
proof fn lemma_two_occurrences<P>(found: Seq<Found<P>>, i: int, j: int)
    requires
        0 <= i < j < found.len(),
        found[i].id@ == found[j].id@,
    ensures
        occurrences(found, found[i].id@) >= 2,
    decreases found.len(),
{
    if j < found.len() - 1 {
        lemma_two_occurrences(found.drop_last(), i, j);
    } else {
        lemma_occurrence_at(found.drop_last(), i);
    }
}

/// How many found packages carry the ID.
fn count_id<P>(found: &Vec<Found<P>>, id: &String) -> (r: usize)
    ensures
        r == occurrences(found@, id@),
{
    let mut n: usize = 0;
    let mut i: usize = 0;
    assert(found@.take(0) =~= Seq::<Found<P>>::empty());
    while i < found.len()
        invariant
            i <= found@.len(),
            n <= i,
            n == occurrences(found@.take(i as int), id@),
        decreases found@.len() - i,
    {
        proof {
            lemma_occurrences_take(found@, i as int, id@);
        }
        if found[i].id == *id {
            n = n + 1;
        }
        i = i + 1;
    }
    assert(found@.take(found@.len() as int) =~= found@);
    n
}

/// When the ID was first recorded missing: the first record for it wins.
pub open spec fn since_of(entries: Seq<(String, u64)>, id: Seq<char>) -> Option<u64>
    decreases entries.len(),
{
    if entries.len() == 0 {
        None
    } else if entries[0].0@ == id {
        Some(entries[0].1)
    } else {
        since_of(entries.drop_first(), id)
    }
}

/// Milliseconds from `since` to `now`, zero when the clock reads earlier.
pub open spec fn elapsed(now: u64, since: u64) -> int {
    if now >= since {
        now - since
    } else {
        0
    }
}

/// Some accepted package carries the ID.
pub open spec fn accepts_id<P>(accepted: Seq<Found<P>>, id: Seq<char>) -> bool {
    exists|k: int| 0 <= k < accepted.len() && #[trigger] accepted[k].id@ == id
}

/// Some string of the list is the ID.
pub open spec fn listed_id(ids: Seq<String>, id: Seq<char>) -> bool {
    exists|k: int| 0 <= k < ids.len() && #[trigger] ids[k]@ == id
}

/// An installed package is uninstalled by a scan when it was not accepted and its root is
/// gone, the scan is forced, or it has been missing for 750 ms since first recorded missing.
pub open spec fn removal_due<P>(
    p: Package,
    accepted: Seq<Found<P>>,
    missing: Seq<String>,
    force: bool,
    now: u64,
    since: Seq<(String, u64)>,
) -> bool {
    &&& !accepts_id(accepted, p.id@)
    &&& (listed_id(missing, p.id@) || force || (since_of(since, p.id@) matches Some(t) && elapsed(
        now,
        t,
    ) >= 750))
}

/// The missing-since record of an ID after a scan that found the packages `ps` installed.
/// Only an installed package that this scan neither accepted nor uninstalled keeps a record:
/// the time of the first scan since it was last installed or accepted that did not accept
/// it. Every other ID, accepted, uninstalled or not installed, has none.
pub open spec fn since_after_scan<P>(
    ps: Seq<Package>,
    accepted: Seq<Found<P>>,
    missing: Seq<String>,
    force: bool,
    now: u64,
    since: Seq<(String, u64)>,
    id: Seq<char>,
) -> Option<u64> {
    if has_id(ps, id) && !accepts_id(accepted, id) && !listed_id(missing, id) && !force {
        match since_of(since, id) {
            Some(t) => if elapsed(now, t) >= 750 {
                None
            } else {
                Some(t)
            },
            None => Some(now),
        }
    } else {
        None
    }
}

proof fn lemma_since_push(s: Seq<(String, u64)>, e: (String, u64), id: Seq<char>)
    ensures
        since_of(s.push(e), id) == match since_of(s, id) {
            Some(t) => Some(t),
            None => if e.0@ == id {
                Some(e.1)
            } else {
                None
            },
        },
    decreases s.len(),
{
    if s.len() > 0 {
        assert(s.push(e).drop_first() =~= s.drop_first().push(e));
        lemma_since_push(s.drop_first(), e, id);
    } else {
        assert(s.push(e).drop_first() =~= Seq::<(String, u64)>::empty());
    }
}

/// The schema of the first setting with the key.
pub open spec fn schema_of(schema: Seq<(String, Setting)>, key: Seq<char>) -> Option<Setting>
    decreases schema.len(),
{
    if schema.len() == 0 {
        None
    } else if schema[0].0@ == key {
        Some(schema[0].1)
    } else {
        schema_of(schema.drop_first(), key)
    }
}

/// Index of the first value recorded for the key, or -1.
pub open spec fn value_index(values: Seq<(String, SettingValue)>, key: Seq<char>) -> int
    decreases values.len(),
{
    if values.len() == 0 {
        -1
    } else if values[0].0@ == key {
        0
    } else {
        let i = value_index(values.drop_first(), key);
        if i < 0 {
            -1
        } else {
            i + 1
        }
    }
}

/// The value recorded for the key becomes `v`, or the pair is appended when the key has none.
pub open spec fn value_set(
    before: Seq<(String, SettingValue)>,
    after: Seq<(String, SettingValue)>,
    key: Seq<char>,
    v: SettingValue,
) -> bool {
    let i = value_index(before, key);
    if i >= 0 {
        after == before.update(i, (before[i].0, v))
    } else {
        after.len() == before.len() + 1 && after.drop_last() == before && after.last().0@ == key
            && after.last().1 == v
    }
}

/// `d` lists each setting of the schema with its default, in schema order.
pub open spec fn defaults_listed(d: Seq<(String, SettingValue)>, schema: Seq<(String, Setting)>) -> bool {
    &&& d.len() == schema.len()
    &&& forall|j: int| 0 <= j < schema.len() ==> #[trigger] d[j].0 == schema[j].0 && d[j].1 == schema[j].1.default
}

/// What a scan does with an accepted package: reinstall the installed package of that ID
/// from the new contents, or install a new one.
pub enum ScanStep<P> {
    Replace { id: String, hash: u64, data: P },
    Add { id: String, hash: u64, data: P },
}

/// The installed package with the ID, if any.
pub open spec fn package_with(ps: Seq<Package>, id: Seq<char>) -> Option<Package> {
    if has_id(ps, id) {
        Some(ps[choose|i: int| 0 <= i < ps.len() && #[trigger] ps[i].id@ == id])
    } else {
        None
    }
}

/// An installed package is reinstalled when the hash of its contents changed and the scan is
/// forced or the same new hash has been seen for 750 ms.
pub open spec fn refresh_due(p: Package, hash: u64, force: bool, now: u64) -> bool {
    &&& p.fingerprint != hash
    &&& (force || (p.pending matches Some(pp) && pp.0 == hash && elapsed(now, pp.1) >= 750))
}

/// The accepted package needs a step: it is new, or its installed package is due a refresh.
pub open spec fn step_needed<P>(ps: Seq<Package>, f: Found<P>, force: bool, now: u64) -> bool {
    match package_with(ps, f.id@) {
        None => true,
        Some(p) => refresh_due(p, f.hash, force, now),
    }
}

/// The step for an accepted package.
pub open spec fn step_for<P>(ps: Seq<Package>, f: Found<P>) -> ScanStep<P> {
    if has_id(ps, f.id@) {
        ScanStep::Replace { id: f.id, hash: f.hash, data: f.data }
    } else {
        ScanStep::Add { id: f.id, hash: f.hash, data: f.data }
    }
}

/// The pending change of an installed package after a scan found contents with `hash`:
/// none when the contents are unchanged, kept when the same change was already pending,
/// otherwise the new hash, first seen `now`.
pub open spec fn pending_after(p: Package, hash: u64, now: u64) -> Option<(u64, u64)> {
    if p.fingerprint == hash {
        None
    } else {
        match p.pending {
            Some(pp) => if pp.0 == hash {
                Some(pp)
            } else {
                Some((hash, now))
            },
            None => Some((hash, now)),
        }
    }
}

/// The hash of the first accepted package carrying the ID.
pub open spec fn accepted_hash<P>(accepted: Seq<Found<P>>, id: Seq<char>) -> Option<u64>
    decreases accepted.len(),
{
    if accepted.len() == 0 {
        None
    } else if accepted[0].id@ == id {
        Some(accepted[0].hash)
    } else {
        accepted_hash(accepted.drop_first(), id)
    }
}

/// Appending an accepted package only matters to an ID not yet accepted.
proof fn lemma_accepted_hash_push<P>(s: Seq<Found<P>>, f: Found<P>, id: Seq<char>)
    ensures
        accepted_hash(s.push(f), id) == match accepted_hash(s, id) {
            Some(h) => Some(h),
            None => if f.id@ == id {
                Some(f.hash)
            } else {
                None
            },
        },
    decreases s.len(),
{
    if s.len() > 0 {
        assert(s.push(f).drop_first() =~= s.drop_first().push(f));
        lemma_accepted_hash_push(s.drop_first(), f, id);
    } else {
        assert(s.push(f).drop_first() =~= Seq::<Found<P>>::empty());
    }
}

/// An accepted hash for the ID means some accepted package carries it.
proof fn lemma_accepted_hash_some<P>(s: Seq<Found<P>>, id: Seq<char>)
    ensures
        accepted_hash(s, id) is Some ==> accepts_id(s, id),
        accepts_id(s, id) ==> accepted_hash(s, id) is Some,
    decreases s.len(),
{
    if s.len() > 0 {
        lemma_accepted_hash_some(s.drop_first(), id);
        if accepts_id(s, id) && s[0].id@ != id {
            let k = choose|k: int| 0 <= k < s.len() && #[trigger] s[k].id@ == id;
            assert(s.drop_first()[k - 1].id@ == id);
        }
        if accepts_id(s.drop_first(), id) {
            let k = choose|k: int| 0 <= k < s.drop_first().len() && #[trigger] s.drop_first()[k].id@ == id;
            assert(s[k + 1].id@ == id);
        }
    }
}

/// In ascending packages the one carrying an ID is the chosen one.
proof fn lemma_package_with(ps: Seq<Package>, i: int)
    requires
        ascending_ids(ps),
        0 <= i < ps.len(),
    ensures
        package_with(ps, ps[i].id@) == Some(ps[i]),
{
    let id = ps[i].id@;
    assert(has_id(ps, id));
    let j = choose|j: int| 0 <= j < ps.len() && #[trigger] ps[j].id@ == id;
    if j < i {
        assert(id_lt(ps[j].id@, ps[i].id@));
    } else if j > i {
        assert(id_lt(ps[i].id@, ps[j].id@));
    }
}

/// Whether some string of the list equals `s`.
fn listed(v: &Vec<String>, s: &String) -> (r: bool)
    ensures
        r == exists|k: int| 0 <= k < v@.len() && #[trigger] v@[k]@ == s@,
{
    let mut i: usize = 0;
    while i < v.len()
        invariant
            i <= v@.len(),
            forall|k: int| 0 <= k < i ==> #[trigger] v@[k]@ != s@,
        decreases v@.len() - i,
    {
        if v[i] == *s {
            return true;
        }
        i = i + 1;
    }
    false
}

/// Inserts a string absent from an ascending list at its place.
fn insert_string_sorted(v: &mut Vec<String>, s: String) -> (pos: usize)
    requires
        ascending_strings(old(v)@),
        forall|k: int| 0 <= k < old(v)@.len() ==> #[trigger] old(v)@[k]@ != s@,
    ensures
        pos <= old(v)@.len(),
        final(v)@ == old(v)@.insert(pos as int, s),
        ascending_strings(final(v)@),
{
    let key = crate::text::chars_of(s.as_str());
    let mut pos: usize = 0;
    while pos < v.len() && crate::text::le_chars(&crate::text::chars_of(v[pos].as_str()), &key)
        invariant
            pos <= v@.len(),
            key@ == s@,
            forall|m: int| 0 <= m < pos ==> chars_le(#[trigger] v@[m]@, s@),
        decreases v@.len() - pos,
    {
        pos = pos + 1;
    }
    let ghost before = v@;
    proof {
        if pos < before.len() {
            lemma_chars_le_total(before[pos as int]@, s@);
        }
        assert forall|m: int| pos <= m < before.len() implies id_lt(s@, #[trigger] before[m]@) by {
            if m > pos {
                assert(id_lt(before[pos as int]@, before[m]@));
                lemma_chars_le_transitive(s@, before[pos as int]@, before[m]@);
            }
            assert(s@ != before[m]@);
        }
        assert forall|m: int| 0 <= m < pos implies id_lt(#[trigger] before[m]@, s@) by {
            assert(before[m]@ != s@);
        }
    }
    let ghost sv = s;
    v.insert(pos, s);
    assert forall|a: int, b: int| 0 <= a < b < v@.len() implies id_lt(
        #[trigger] v@[a]@,
        #[trigger] v@[b]@,
    ) by {
        if b < pos {
            assert(id_lt(before[a]@, before[b]@));
        } else if b == pos {
            assert(id_lt(before[a]@, sv@));
        } else if a == pos {
            assert(id_lt(sv@, before[b - 1]@));
        } else if a < pos {
            assert(id_lt(before[a]@, before[b - 1]@));
        } else {
            assert(id_lt(before[a - 1]@, before[b - 1]@));
        }
    }
    pos
}

/// Inserts a found package whose ID is absent from an ascending list at its place.
fn insert_found_sorted<P>(v: &mut Vec<Found<P>>, f: Found<P>) -> (pos: usize)
    requires
        ascending_found(old(v)@),
        forall|k: int| 0 <= k < old(v)@.len() ==> #[trigger] old(v)@[k].id@ != f.id@,
    ensures
        pos <= old(v)@.len(),
        final(v)@ == old(v)@.insert(pos as int, f),
        ascending_found(final(v)@),
{
    let key = crate::text::chars_of(f.id.as_str());
    let mut pos: usize = 0;
    while pos < v.len() && crate::text::le_chars(&crate::text::chars_of(v[pos].id.as_str()), &key)
        invariant
            pos <= v@.len(),
            key@ == f.id@,
            forall|m: int| 0 <= m < pos ==> chars_le(#[trigger] v@[m].id@, f.id@),
        decreases v@.len() - pos,
    {
        pos = pos + 1;
    }
    let ghost before = v@;
    let ghost fid = f.id@;
    proof {
        if pos < before.len() {
            lemma_chars_le_total(before[pos as int].id@, fid);
        }
        assert forall|m: int| pos <= m < before.len() implies id_lt(fid, #[trigger] before[m].id@) by {
            if m > pos {
                assert(id_lt(before[pos as int].id@, before[m].id@));
                lemma_chars_le_transitive(fid, before[pos as int].id@, before[m].id@);
            }
            assert(fid != before[m].id@);
        }
        assert forall|m: int| 0 <= m < pos implies id_lt(#[trigger] before[m].id@, fid) by {
            assert(before[m].id@ != fid);
        }
    }
    v.insert(pos, f);
    assert forall|a: int, b: int| 0 <= a < b < v@.len() implies id_lt(
        #[trigger] v@[a].id@,
        #[trigger] v@[b].id@,
    ) by {
        if b < pos {
            assert(id_lt(before[a].id@, before[b].id@));
        } else if b == pos {
            assert(id_lt(before[a].id@, fid));
        } else if a == pos {
            assert(id_lt(fid, before[b - 1].id@));
        } else if a < pos {
            assert(id_lt(before[a].id@, before[b - 1].id@));
        } else {
            assert(id_lt(before[a - 1].id@, before[b - 1].id@));
        }
    }
    pos
}

/// The package registry.
pub struct Manager {
    packages: Vec<Package>,
    diagnostics: Vec<String>,
    commands: Vec<(String, Command)>,
    retired: Vec<String>,
    last_scan: Option<u64>,
    invalid_since: Vec<(String, u64)>,
}

impl Manager {
    /// The registry is well formed: package IDs strictly ascend, and every package is keyed
    /// by the ID of its manifest, which follows the manifest rules.
    pub closed spec fn wf(self) -> bool {
        ascending_ids(self.packages@) && all_installable(self.packages@)
    }

    /// Every well-formed registry, and so every registry the operations leave: IDs strictly
    /// ascend, every package is keyed by its manifest's ID, its manifest follows the manifest
    /// rules, its setting values fit the manifest's schema, and it runs only while enabled.
    pub proof fn law_installed_packages_are_installable(self)
        requires
            self.wf(),
        ensures
            ascending_ids(self.packages_seq()),
            all_installable(self.packages_seq()),
    {
    }

    /// The installed packages, in ascending ID order.
    pub closed spec fn packages_seq(self) -> Seq<Package> {
        self.packages@
    }

    /// Problems found by the last scan or while reading preferences.
    pub closed spec fn diagnostics_seq(self) -> Seq<String> {
        self.diagnostics@
    }

    /// Commands staged by callbacks and not yet applied, with their owners, in staging order.
    pub closed spec fn commands_seq(self) -> Seq<(String, Command)> {
        self.commands@
    }

    /// Owners whose host resources must be released, in the order they stopped.
    pub closed spec fn retired_seq(self) -> Seq<String> {
        self.retired@
    }

    /// The time of the last scan, if any.
    pub closed spec fn last_scan_time(self) -> Option<u64> {
        self.last_scan
    }

    /// When each missing package was first found missing.
    pub closed spec fn invalid_since_seq(self) -> Seq<(String, u64)> {
        self.invalid_since@
    }

    /// An empty registry that scans at the first opportunity.
    pub fn new() -> (m: Self)
        ensures
            m.packages_seq().len() == 0,
            m.diagnostics_seq().len() == 0,
            m.commands_seq().len() == 0,
            m.retired_seq().len() == 0,
            m.last_scan_time() is None,
            m.invalid_since_seq().len() == 0,
            m.wf(),
    {
        Manager {
            packages: Vec::new(),
            diagnostics: Vec::new(),
            commands: Vec::new(),
            retired: Vec::new(),
            last_scan: None,
            invalid_since: Vec::new(),
        }
    }

    /// The installed packages, in ascending ID order.
    pub fn packages(&self) -> (r: &Vec<Package>)
        requires
            self.wf(),
        ensures
            r@ == self.packages_seq(),
            ascending_ids(r@),
            all_installable(r@),
    {
        &self.packages
    }

    /// The diagnostics.
    pub fn diagnostics(&self) -> (r: &Vec<String>)
        ensures
            r@ == self.diagnostics_seq(),
    {
        &self.diagnostics
    }

    /// The staged commands.
    pub fn commands(&self) -> (r: &Vec<(String, Command)>)
        ensures
            r@ == self.commands_seq(),
    {
        &self.commands
    }

    /// Records a diagnostic.
    pub fn diagnose(&mut self, message: String)
        requires
            old(self).wf(),
        ensures
            final(self).wf(),
            final(self).diagnostics_seq() == old(self).diagnostics_seq().push(message),
            final(self).packages_seq() == old(self).packages_seq(),
            final(self).commands_seq() == old(self).commands_seq(),
            final(self).retired_seq() == old(self).retired_seq(),
            final(self).last_scan_time() == old(self).last_scan_time(),
            final(self).invalid_since_seq() == old(self).invalid_since_seq(),
    {
        self.diagnostics.push(message);
    }

    /// Hands over the staged commands, leaving none.
    pub fn take_commands(&mut self) -> (r: Vec<(String, Command)>)
        requires
            old(self).wf(),
        ensures
            final(self).wf(),
            r@ == old(self).commands_seq(),
            final(self).commands_seq().len() == 0,
            final(self).packages_seq() == old(self).packages_seq(),
            final(self).diagnostics_seq() == old(self).diagnostics_seq(),
            final(self).retired_seq() == old(self).retired_seq(),
            final(self).last_scan_time() == old(self).last_scan_time(),
            final(self).invalid_since_seq() == old(self).invalid_since_seq(),
    {
        let mut out: Vec<(String, Command)> = Vec::new();
        std::mem::swap(&mut out, &mut self.commands);
        out
    }

    /// Hands over the retired owners, leaving none.
    pub fn take_retired(&mut self) -> (r: Vec<String>)
        requires
            old(self).wf(),
        ensures
            final(self).wf(),
            r@ == old(self).retired_seq(),
            final(self).retired_seq().len() == 0,
            final(self).packages_seq() == old(self).packages_seq(),
            final(self).diagnostics_seq() == old(self).diagnostics_seq(),
            final(self).commands_seq() == old(self).commands_seq(),
            final(self).last_scan_time() == old(self).last_scan_time(),
            final(self).invalid_since_seq() == old(self).invalid_since_seq(),
    {
        let mut out: Vec<String> = Vec::new();
        std::mem::swap(&mut out, &mut self.retired);
        out
    }

    /// Drops every staged command.
    pub fn clear_commands(&mut self)
        requires
            old(self).wf(),
        ensures
            final(self).wf(),
            final(self).commands_seq().len() == 0,
            final(self).packages_seq() == old(self).packages_seq(),
            final(self).diagnostics_seq() == old(self).diagnostics_seq(),
            final(self).retired_seq() == old(self).retired_seq(),
            final(self).last_scan_time() == old(self).last_scan_time(),
            final(self).invalid_since_seq() == old(self).invalid_since_seq(),
    {
        self.commands = Vec::new();
    }

    /// Where the package with this ID stands, if it is installed.
    pub fn position(&self, id: &str) -> (r: Option<usize>)
        ensures
            r matches Some(i) ==> i < self.packages_seq().len() && self.packages_seq()[i as int].id@
                == id@,
            r is None ==> !has_id(self.packages_seq(), id@),
    {
        let key = String::from_str(id);
        let mut i: usize = 0;
        while i < self.packages.len()
            invariant
                i <= self.packages@.len(),
                key@ == id@,
                forall|j: int| 0 <= j < i ==> #[trigger] self.packages@[j].id@ != id@,
            decreases self.packages@.len() - i,
        {
            if self.packages[i].id == key {
                return Some(i);
            }
            i = i + 1;
        }
        None
    }

    /// Whether the package is installed and running.
    pub fn is_running(&self, id: &str) -> (r: bool)
        requires
            self.wf(),
        ensures
            r == exists|i: int| 0 <= i < self.packages_seq().len() && #[trigger] self.packages_seq()[i].id@
                == id@ && self.packages_seq()[i].running,
    {
        match self.position(id) {
            Some(i) => {
                proof {
                    self.lemma_unique(i as int, id@);
                }
                self.packages[i].running
            },
            None => false,
        }
    }

    /// The command batches the host applies: those whose owner is installed and running, in
    /// the given order. Batches of stopped or uninstalled owners are dropped.
    pub fn running_batches(&self, batches: Vec<(String, Vec<Command>)>) -> (r: Vec<(String, Vec<Command>)>)
        requires
            self.wf(),
        ensures
            r@ == batches@.filter(running_owner(self.packages_seq())),
    {
        let ghost all = batches@;
        let ghost keep = running_owner(self.packages_seq());
        let mut rest = batches;
        let mut r: Vec<(String, Vec<Command>)> = Vec::new();
        let mut i: usize = 0;
        assert(all.take(0) =~= Seq::<(String, Vec<Command>)>::empty());
        assert(all.skip(0) =~= all);
        let n = rest.len();
        while rest.len() > 0
            invariant
                n == all.len(),
                i <= n,
                rest@ == all.skip(i as int),
                rest@.len() == n - i,
                keep == running_owner(self.packages_seq()),
                r@ == all.take(i as int).filter(keep),
                self.wf(),
            decreases rest@.len(),
        {
            let b = rest.remove(0);
            proof {
                broadcast use Seq::lemma_filter_push;
                assert(b == all[i as int]);
                assert(all.take(i + 1) =~= all.take(i as int).push(b));
                assert(rest@ =~= all.skip(i + 1));
            }
            if self.is_running(b.0.as_str()) {
                r.push(b);
            }
            i = i + 1;
        }
        assert(all.take(i as int) =~= all);
        r
    }

    /// Whether the package is installed with its enable preference set.
    pub fn wants_start(&self, id: &str) -> (r: bool)
        requires
            self.wf(),
        ensures
            r == exists|i: int| 0 <= i < self.packages_seq().len() && #[trigger] self.packages_seq()[i].id@
                == id@ && self.packages_seq()[i].enabled,
    {
        match self.position(id) {
            Some(i) => {
                proof {
                    self.lemma_unique(i as int, id@);
                }
                self.packages[i].enabled
            },
            None => false,
        }
    }

    /// The installed IDs, ascending: the order in which callbacks are dispatched.
    pub fn ids(&self) -> (r: Vec<String>)
        ensures
            r@.len() == self.packages_seq().len(),
            forall|i: int| 0 <= i < r@.len() ==> #[trigger] r@[i]@ == self.packages_seq()[i].id@,
    {
        let mut r: Vec<String> = Vec::new();
        let mut i: usize = 0;
        while i < self.packages.len()
            invariant
                i <= self.packages@.len(),
                r@.len() == i,
                forall|j: int| 0 <= j < i ==> #[trigger] r@[j]@ == self.packages@[j].id@,
            decreases self.packages@.len() - i,
        {
            r.push(self.packages[i].id.clone());
            i = i + 1;
        }
        r
    }

    /// Only the package at `i` carries its ID.
    proof fn lemma_unique(&self, i: int, id: Seq<char>)
        requires
            ascending_ids(self.packages@),
            0 <= i < self.packages@.len(),
            self.packages@[i].id@ == id,
        ensures
            forall|j: int| 0 <= j < self.packages@.len() && j != i ==> #[trigger] self.packages@[j].id@
                != id,
    {
        assert forall|j: int| 0 <= j < self.packages@.len() && j != i implies #[trigger] self.packages@[j].id@
            != id by {
            if j < i {
                assert(id_lt(self.packages@[j].id@, self.packages@[i].id@));
            } else {
                assert(id_lt(self.packages@[i].id@, self.packages@[j].id@));
            }
        }
    }

    /// Drops the staged commands owned by `id`, keeping the others in order.
    fn drop_commands_of(&mut self, id: &String)
        ensures
            final(self).commands@ == without_owner(old(self).commands@, id@),
            final(self).packages@ == old(self).packages@,
            final(self).diagnostics@ == old(self).diagnostics@,
            final(self).retired@ == old(self).retired@,
            final(self).last_scan == old(self).last_scan,
            final(self).invalid_since@ == old(self).invalid_since@,
    {
        let mut rest: Vec<(String, Command)> = Vec::new();
        std::mem::swap(&mut rest, &mut self.commands);
        let ghost all = rest@;
        assert(all.len() == rest.len());
        let ghost pred = not_owned_by(id@);
        let mut kept: Vec<(String, Command)> = Vec::new();
        let mut i: usize = 0;
        while rest.len() > 0
            invariant
                i <= all.len(),
                all.len() <= usize::MAX,
                rest@ == all.skip(i as int),
                rest@.len() == all.len() - i,
                kept@ == all.take(i as int).filter(pred),
                pred == not_owned_by(id@),
            decreases rest@.len(),
        {
            let c = rest.remove(0);
            proof {
                broadcast use Seq::lemma_filter_push;
                assert(all.take(i + 1) =~= all.take(i as int).push(c));
                assert(rest@ =~= all.skip(i + 1));
            }
            if c.0 != *id {
                kept.push(c);
            }
            i = i + 1;
        }
        assert(all.take(i as int) =~= all);
        self.commands = kept;
    }

    /// Stops the package: `unload` is the outcome of its `on_unload` callback when it was
    /// running. Its script state is gone, an unload error is recorded, its staged commands
    /// are dropped and it is listed among the retired owners, whether or not it is installed.
    pub fn stop(&mut self, id: &str, unload: Option<Result<(), String>>)
        requires
            old(self).wf(),
        ensures
            final(self).wf(),
            final(self).packages_seq().len() == old(self).packages_seq().len(),
            forall|i: int| 0 <= i < old(self).packages_seq().len() ==> {
                let p = #[trigger] old(self).packages_seq()[i];
                let q = final(self).packages_seq()[i];
                if p.id@ == id@ {
                    &&& q == Package { running: false, error: q.error, ..p }
                    &&& p.running ==> (unload matches Some(Err(e)) ==> (q.error matches Some(m)
                        && m@ == "on_unload: "@ + e@))
                    &&& !(p.running && unload matches Some(Err(_))) ==> q.error == p.error
                } else {
                    q == p
                }
            },
            final(self).commands_seq() == without_owner(old(self).commands_seq(), id@),
            final(self).retired_seq().len() == old(self).retired_seq().len() + 1,
            final(self).retired_seq().drop_last() == old(self).retired_seq(),
            final(self).retired_seq().last()@ == id@,
            final(self).diagnostics_seq() == old(self).diagnostics_seq(),
            final(self).last_scan_time() == old(self).last_scan_time(),
            final(self).invalid_since_seq() == old(self).invalid_since_seq(),
    {
        let key = String::from_str(id);
        if let Some(i) = self.position(id) {
            let mut p = self.packages.remove(i);
            if p.running {
                p.running = false;
                if let Some(Err(e)) = unload {
                    p.error = Some(String::from_str("on_unload: ").concat(e.as_str()));
                }
            }
            self.packages.insert(i, p);
        }
        self.drop_commands_of(&key);
        self.retired.push(key);
    }

    /// Stops the package after a failure and records `error` as its error.
    pub fn fail(&mut self, id: &str, error: String, unload: Option<Result<(), String>>)
        requires
            old(self).wf(),
        ensures
            final(self).wf(),
            final(self).packages_seq().len() == old(self).packages_seq().len(),
            forall|i: int| 0 <= i < old(self).packages_seq().len() ==> {
                let p = #[trigger] old(self).packages_seq()[i];
                let q = final(self).packages_seq()[i];
                if p.id@ == id@ {
                    q == Package { running: false, error: Some(error), ..p }
                } else {
                    q == p
                }
            },
            final(self).commands_seq() == without_owner(old(self).commands_seq(), id@),
            final(self).retired_seq().len() == old(self).retired_seq().len() + 1,
            final(self).retired_seq().drop_last() == old(self).retired_seq(),
            final(self).retired_seq().last()@ == id@,
            final(self).diagnostics_seq() == old(self).diagnostics_seq(),
            final(self).last_scan_time() == old(self).last_scan_time(),
            final(self).invalid_since_seq() == old(self).invalid_since_seq(),
    {
        let ghost before = self.packages@;
        self.stop(id, unload);
        let ghost mid = self.packages@;
        if let Some(i) = self.position(id) {
            let mut p = self.packages.remove(i);
            p.error = Some(error);
            self.packages.insert(i, p);
            proof {
                self.lemma_unique(i as int, id@);
                assert forall|j: int| 0 <= j < old(self).packages_seq().len() implies {
                    let p = #[trigger] old(self).packages_seq()[j];
                    let q = self.packages_seq()[j];
                    if p.id@ == id@ {
                        q == Package { running: false, error: Some(error), ..p }
                    } else {
                        q == p
                    }
                } by {
                    if j == i {
                        assert(mid[j].id@ == id@);
                        assert(before[j].id == mid[j].id);
                    } else {
                        assert(self.packages@[j] == mid[j]);
                    }
                }
            }
        } else {
            proof {
                assert forall|j: int| 0 <= j < old(self).packages_seq().len() implies #[trigger] old(
                    self,
                ).packages_seq()[j].id@ != id@ by {
                    let p = before[j];
                    if p.id@ == id@ {
                        assert(mid[j].id == p.id);
                    }
                }
            }
        }
    }

    /// Records the outcome of creating the package's script state. Nothing changes when the
    /// package is not installed or not enabled (only enabled packages run). Otherwise its
    /// error is cleared; on success it is running and `true` is returned (its `on_load`
    /// callback is due); on failure the error is recorded and the package is listed among the
    /// retired owners.
    pub fn start(&mut self, id: &str, load: Result<(), String>) -> (r: bool)
        requires
            old(self).wf(),
        ensures
            final(self).wf(),
            r == (enabled_package(old(self).packages_seq(), id@) && load is Ok),
            final(self).packages_seq().len() == old(self).packages_seq().len(),
            forall|i: int| 0 <= i < old(self).packages_seq().len() ==> {
                let p = #[trigger] old(self).packages_seq()[i];
                let q = final(self).packages_seq()[i];
                if p.id@ == id@ && p.enabled {
                    q == Package {
                        running: load is Ok || p.running,
                        error: match load {
                            Ok(_) => None,
                            Err(e) => Some(e),
                        },
                        ..p
                    }
                } else {
                    q == p
                }
            },
            final(self).retired_seq() == (if enabled_package(old(self).packages_seq(), id@) && load is Err {
                old(self).retired_seq().push(final(self).retired_seq().last())
            } else {
                old(self).retired_seq()
            }),
            enabled_package(old(self).packages_seq(), id@) && load is Err ==> final(self).retired_seq().last()@
                == id@,
            final(self).commands_seq() == old(self).commands_seq(),
            final(self).diagnostics_seq() == old(self).diagnostics_seq(),
            final(self).last_scan_time() == old(self).last_scan_time(),
            final(self).invalid_since_seq() == old(self).invalid_since_seq(),
    {
        match self.position(id) {
            None => false,
            Some(i) => {
                proof {
                    self.lemma_unique(i as int, id@);
                }
                if !self.packages[i].enabled {
                    return false;
                }
                let ghost pk = self.packages@;
                let mut p = self.packages.remove(i);
                let ok = match load {
                    Ok(_) => {
                        p.error = None;
                        p.running = true;
                        true
                    },
                    Err(e) => {
                        p.error = Some(e);
                        false
                    },
                };
                self.packages.insert(i, p);
                proof {
                    assert forall|t: int| 0 <= t < self.packages@.len() implies installable(#[trigger] self.packages@[t]) by {
                        if t != i {
                            assert(self.packages@[t] == pk[t]);
                        } else {
                            assert(installable(pk[t]));
                        }
                    }
                }
                if !ok {
                    self.retired.push(String::from_str(id));
                }
                ok
            },
        }
    }

    /// Records the outcome of running a callback of a running package: its staged commands
    /// are queued, tagged with the package ID and in staging order; on an error nothing is
    /// queued and the message `<callback>: <error>` is returned, with which the package must
    /// then fail. A package that is not running produces nothing.
    pub fn record_callback(
        &mut self,
        id: &str,
        callback: &str,
        result: Result<Vec<Command>, String>,
    ) -> (r: Option<String>)
        requires
            old(self).wf(),
        ensures
            final(self).wf(),
            final(self).packages_seq() == old(self).packages_seq(),
            final(self).retired_seq() == old(self).retired_seq(),
            final(self).diagnostics_seq() == old(self).diagnostics_seq(),
            final(self).last_scan_time() == old(self).last_scan_time(),
            final(self).invalid_since_seq() == old(self).invalid_since_seq(),
            ({
                let live = exists|i: int| 0 <= i < old(self).packages_seq().len()
                    && #[trigger] old(self).packages_seq()[i].id@ == id@
                    && old(self).packages_seq()[i].running;
                match result {
                    Ok(cs) => {
                        &&& r is None
                        &&& live ==> {
                            &&& final(self).commands_seq().len() == old(self).commands_seq().len()
                                + cs@.len()
                            &&& final(self).commands_seq().subrange(
                                0,
                                old(self).commands_seq().len() as int,
                            ) == old(self).commands_seq()
                            &&& forall|k: int| 0 <= k < cs@.len() ==> {
                                let t = #[trigger] final(self).commands_seq()[old(
                                    self,
                                ).commands_seq().len() + k];
                                t.0@ == id@ && t.1 == cs@[k]
                            }
                        }
                        &&& !live ==> final(self).commands_seq() == old(self).commands_seq()
                    },
                    Err(e) => {
                        &&& final(self).commands_seq() == old(self).commands_seq()
                        &&& live ==> (r matches Some(m) && m@ == callback@ + ": "@ + e@)
                        &&& !live ==> r is None
                    },
                }
            }),
    {
        if !self.is_running(id) {
            return None;
        }
        match result {
            Ok(cs) => {
                let ghost before = self.commands@;
                let mut rest = cs;
                let ghost all = rest@;
                let mut k: usize = 0;
                assert(all.len() == rest.len());
                while rest.len() > 0
                    invariant
                        k <= all.len(),
                        all.len() <= usize::MAX,
                        rest@ == all.skip(k as int),
                        rest@.len() == all.len() - k,
                        self.commands@.len() == before.len() + k,
                        self.commands@.subrange(0, before.len() as int) == before,
                        forall|j: int| 0 <= j < k ==> {
                            let t = #[trigger] self.commands@[before.len() + j];
                            t.0@ == id@ && t.1 == all[j]
                        },
                        self.packages@ == old(self).packages@,
                        self.retired@ == old(self).retired@,
                        self.diagnostics@ == old(self).diagnostics@,
                        self.last_scan == old(self).last_scan,
                        self.invalid_since@ == old(self).invalid_since@,
                    decreases rest@.len(),
                {
                    let c = rest.remove(0);
                    proof {
                        assert(rest@ =~= all.skip(k + 1));
                    }
                    self.commands.push((String::from_str(id), c));
                    proof {
                        assert(self.commands@.subrange(0, before.len() as int) =~= before);
                    }
                    k = k + 1;
                }
                None
            },
            Err(e) => {
                let m = String::from_str(callback).concat(": ").concat(e.as_str());
                Some(m)
            },
        }
    }

    /// Sets the enable preference of the package and stops it, as disabling or reloading
    /// does: `unload` is the outcome of its `on_unload` callback when it was running (see
    /// `stop`). An enabled package is then due to start again. An unknown ID is refused and
    /// nothing changes.
    pub fn enable(&mut self, id: &str, enabled: bool, unload: Option<Result<(), String>>) -> (r: Result<
        (),
        String,
    >)
        requires
            old(self).wf(),
        ensures
            final(self).wf(),
            r is Ok <==> has_id(old(self).packages_seq(), id@),
            r matches Err(e) ==> e@ == "Unknown mod"@,
            r is Err ==> final(self).packages_seq() == old(self).packages_seq() && final(self).commands_seq()
                == old(self).commands_seq() && final(self).retired_seq() == old(self).retired_seq(),
            final(self).packages_seq().len() == old(self).packages_seq().len(),
            forall|i: int| 0 <= i < old(self).packages_seq().len() ==> {
                let p = #[trigger] old(self).packages_seq()[i];
                let q = final(self).packages_seq()[i];
                if p.id@ == id@ {
                    &&& q == Package { enabled, running: false, error: q.error, ..p }
                    &&& p.running ==> (unload matches Some(Err(e)) ==> (q.error matches Some(m)
                        && m@ == "on_unload: "@ + e@))
                    &&& !(p.running && unload matches Some(Err(_))) ==> q.error == p.error
                } else {
                    q == p
                }
            },
            r is Ok ==> final(self).commands_seq() == without_owner(old(self).commands_seq(), id@),
            r is Ok ==> final(self).retired_seq() == old(self).retired_seq().push(final(self).retired_seq().last())
                && final(self).retired_seq().last()@ == id@,
            final(self).diagnostics_seq() == old(self).diagnostics_seq(),
            final(self).last_scan_time() == old(self).last_scan_time(),
            final(self).invalid_since_seq() == old(self).invalid_since_seq(),
    {
        match self.position(id) {
            None => Err(String::from_str("Unknown mod")),
            Some(i) => {
                proof {
                    self.lemma_unique(i as int, id@);
                }
                let ghost pk = self.packages@;
                let mut p = self.packages.remove(i);
                p.enabled = enabled;
                let was_running = p.running;
                p.running = false;
                if was_running {
                    if let Some(Err(e)) = &unload {
                        p.error = Some(String::from_str("on_unload: ").concat(e.as_str()));
                    }
                }
                self.packages.insert(i, p);
                proof {
                    assert forall|t: int| 0 <= t < self.packages@.len() implies installable(#[trigger] self.packages@[t]) by {
                        if t != i {
                            assert(self.packages@[t] == pk[t]);
                        } else {
                            assert(installable(pk[t]));
                        }
                    }
                }
                let key = String::from_str(id);
                self.drop_commands_of(&key);
                self.retired.push(key);
                Ok(())
            },
        }
    }

    /// Uninstalls the package with this ID, returning where it stood; any missing-since record
    /// of the ID is forgotten.
    #[verifier::rlimit(40)]
    pub fn remove(&mut self, id: &str) -> (r: Option<usize>)
        requires
            old(self).wf(),
        ensures
            final(self).wf(),
            r is None <==> !has_id(old(self).packages_seq(), id@),
            r matches Some(i) ==> i < old(self).packages_seq().len() && old(
                self,
            ).packages_seq()[i as int].id@ == id@ && final(self).packages_seq() == old(
                self,
            ).packages_seq().remove(i as int),
            r is None ==> final(self).packages_seq() == old(self).packages_seq(),
            final(self).commands_seq() == old(self).commands_seq(),
            final(self).retired_seq() == old(self).retired_seq(),
            final(self).diagnostics_seq() == old(self).diagnostics_seq(),
            final(self).last_scan_time() == old(self).last_scan_time(),
            forall|x: Seq<char>| #[trigger] since_of(final(self).invalid_since_seq(), x) == if x == id@ {
                None
            } else {
                since_of(old(self).invalid_since_seq(), x)
            },
    {
        let key = String::from_str(id);
        self.forget_since(&key);
        match self.position(id) {
            None => None,
            Some(i) => {
                let ghost before = self.packages@;
                self.packages.remove(i);
                assert forall|a: int, b: int| 0 <= a < b < self.packages@.len() implies id_lt(
                    #[trigger] self.packages@[a].id@,
                    #[trigger] self.packages@[b].id@,
                ) by {
                    let a0 = if a < i { a } else { a + 1 };
                    let b0 = if b < i { b } else { b + 1 };
                    assert(self.packages@[a] == before[a0]);
                    assert(self.packages@[b] == before[b0]);
                }
                Some(i)
            },
        }
    }

    /// Installs a package that is not yet installed: stopped, without error or pending
    /// change, with the given manifest and content hash and the saved enable preference; its
    /// setting values come from the saved ones where the manifest's schema accepts them and
    /// are defaults otherwise. The ID has no missing-since record. Returns where it stands.
    pub fn insert(&mut self, id: String, manifest: Manifest, saved: &Preferences, fingerprint: u64) -> (r: usize)
        requires
            old(self).wf(),
            manifest.id@ == id@,
            manifest_problem(manifest) is None,
            !has_id(old(self).packages_seq(), id@),
        ensures
            final(self).wf(),
            r <= old(self).packages_seq().len(),
            ({
                let q = final(self).packages_seq()[r as int];
                &&& final(self).packages_seq() == old(self).packages_seq().insert(r as int, q)
                &&& q.id == id && q.manifest == manifest && q.error is None && q.enabled == saved.enabled
                &&& !q.running && q.fingerprint == fingerprint && q.pending is None
                &&& settings_merged(q.settings@, manifest.settings@, saved.values@)
            }),
            final(self).commands_seq() == old(self).commands_seq(),
            final(self).retired_seq() == old(self).retired_seq(),
            final(self).diagnostics_seq() == old(self).diagnostics_seq(),
            final(self).last_scan_time() == old(self).last_scan_time(),
            forall|x: Seq<char>| #[trigger] since_of(final(self).invalid_since_seq(), x) == if x == id@ {
                None
            } else {
                since_of(old(self).invalid_since_seq(), x)
            },
    {
        self.forget_since(&id);
        let settings = merge_settings(&manifest.settings, &saved.values);
        let enabled = saved.enabled;
        let key = crate::text::chars_of(id.as_str());
        let mut pos: usize = 0;
        while pos < self.packages.len() && crate::text::le_chars(
            &crate::text::chars_of(self.packages[pos].id.as_str()),
            &key,
        )
            invariant
                pos <= self.packages@.len(),
                key@ == id@,
                forall|m: int| 0 <= m < pos ==> chars_le(#[trigger] self.packages@[m].id@, id@),
            decreases self.packages@.len() - pos,
        {
            pos = pos + 1;
        }
        let ghost before = self.packages@;
        let ghost idv = id@;
        proof {
            if pos < before.len() {
                lemma_chars_le_total(before[pos as int].id@, id@);
            }
            assert forall|m: int| pos <= m < before.len() implies id_lt(
                id@,
                #[trigger] before[m].id@,
            ) by {
                if m > pos {
                    assert(id_lt(before[pos as int].id@, before[m].id@));
                    lemma_chars_le_transitive(id@, before[pos as int].id@, before[m].id@);
                    if id@ == before[m].id@ {
                        lemma_chars_le_antisymmetric(before[pos as int].id@, before[m].id@);
                    }
                }
                assert(id@ != before[m].id@);
            }
            assert forall|m: int| 0 <= m < pos implies id_lt(#[trigger] before[m].id@, id@) by {
                assert(before[m].id@ != id@);
            }
        }
        self.packages.insert(
            pos,
            Package {
                id,
                manifest,
                settings,
                error: None,
                enabled,
                running: false,
                fingerprint,
                pending: None,
            },
        );
        assert forall|a: int, b: int| 0 <= a < b < self.packages@.len() implies id_lt(
            #[trigger] self.packages@[a].id@,
            #[trigger] self.packages@[b].id@,
        ) by {
            if b < pos {
                assert(id_lt(before[a].id@, before[b].id@));
            } else if b == pos {
                assert(id_lt(before[a].id@, idv));
            } else if a == pos {
                assert(id_lt(idv, before[b - 1].id@));
            } else if a < pos {
                assert(id_lt(before[a].id@, before[b - 1].id@));
            } else {
                assert(id_lt(before[a - 1].id@, before[b - 1].id@));
            }
        }
        pos
    }

    /// Records that the package was reinstalled from a new manifest and contents with the
    /// given hash: no change is pending, and its setting values are carried over where the new
    /// schema accepts them, defaults otherwise. Returns whether it is installed.
    pub fn replace(&mut self, id: &str, manifest: Manifest, fingerprint: u64) -> (r: bool)
        requires
            old(self).wf(),
            manifest.id@ == id@,
            manifest_problem(manifest) is None,
        ensures
            final(self).wf(),
            r == has_id(old(self).packages_seq(), id@),
            final(self).packages_seq().len() == old(self).packages_seq().len(),
            forall|i: int| 0 <= i < old(self).packages_seq().len() ==> {
                let p = #[trigger] old(self).packages_seq()[i];
                let q = final(self).packages_seq()[i];
                if p.id@ == id@ {
                    &&& q == Package {
                        manifest: q.manifest,
                        settings: q.settings,
                        fingerprint,
                        pending: None,
                        ..p
                    }
                    &&& q.manifest == manifest
                    &&& settings_merged(q.settings@, manifest.settings@, p.settings@)
                } else {
                    q == p
                }
            },
            final(self).commands_seq() == old(self).commands_seq(),
            final(self).retired_seq() == old(self).retired_seq(),
            final(self).diagnostics_seq() == old(self).diagnostics_seq(),
            final(self).last_scan_time() == old(self).last_scan_time(),
            final(self).invalid_since_seq() == old(self).invalid_since_seq(),
    {
        match self.position(id) {
            None => false,
            Some(i) => {
                let mut p = self.packages.remove(i);
                let settings = merge_settings(&manifest.settings, &p.settings);
                p.manifest = manifest;
                p.settings = settings;
                p.fingerprint = fingerprint;
                p.pending = None;
                self.packages.insert(i, p);
                true
            },
        }
    }

    /// Decides whether a scan is due at `now` (ms): always when forced or when none ran yet,
    /// otherwise once 500 ms have passed since the last one. A due scan is recorded as the
    /// last one and starts with no diagnostics.
    pub fn scan_due(&mut self, force: bool, now: u64) -> (r: bool)
        requires
            old(self).wf(),
        ensures
            final(self).wf(),
            r == (force || match old(self).last_scan_time() {
                None => true,
                Some(t) => now >= t && now - t >= 500,
            }),
            r ==> final(self).last_scan_time() == Some(now) && final(self).diagnostics_seq().len()
                == 0,
            !r ==> final(self).last_scan_time() == old(self).last_scan_time()
                && final(self).diagnostics_seq() == old(self).diagnostics_seq(),
            final(self).packages_seq() == old(self).packages_seq(),
            final(self).commands_seq() == old(self).commands_seq(),
            final(self).retired_seq() == old(self).retired_seq(),
            final(self).invalid_since_seq() == old(self).invalid_since_seq(),
    {
        if !force {
            if let Some(t) = self.last_scan {
                if now < t || now - t < 500 {
                    return false;
                }
            }
        }
        self.last_scan = Some(now);
        self.diagnostics = Vec::new();
        true
    }

    /// Settles which found packages a scan admits: those whose ID no other found package
    /// carries, returned in ascending ID order. Every ID carried by several found packages is
    /// reported once, in ascending order, with all its copies rejected.
    pub fn accept_found<P>(&mut self, found: Vec<Found<P>>) -> (r: Vec<Found<P>>)
        requires
            old(self).wf(),
        ensures
            final(self).wf(),
            ascending_found(r@),
            forall|k: int| 0 <= k < r@.len() ==> admitted(found@, #[trigger] r@[k]),
            forall|j: int|
                0 <= j < found@.len() && occurrences(found@, #[trigger] found@[j].id@) == 1
                    ==> r@.contains(found@[j]),
            exists|dups: Seq<String>|
                {
                    &&& ascending_strings(dups)
                    &&& forall|k: int| 0 <= k < dups.len() ==> occurrences(found@, #[trigger] dups[k]@) >= 2
                    &&& forall|j: int|
                        0 <= j < found@.len() && occurrences(found@, #[trigger] found@[j].id@) >= 2
                            ==> exists|k: int| 0 <= k < dups.len() && #[trigger] dups[k]@ == found@[j].id@
                    &&& final(self).diagnostics_seq().len() == old(self).diagnostics_seq().len() + dups.len()
                    &&& final(self).diagnostics_seq().take(old(self).diagnostics_seq().len() as int)
                        == old(self).diagnostics_seq()
                    &&& forall|k: int| 0 <= k < dups.len() ==> #[trigger] final(self).diagnostics_seq()[old(
                        self,
                    ).diagnostics_seq().len() + k]@ == duplicate_message(dups[k]@)
                },
            final(self).packages_seq() == old(self).packages_seq(),
            final(self).commands_seq() == old(self).commands_seq(),
            final(self).retired_seq() == old(self).retired_seq(),
            final(self).last_scan_time() == old(self).last_scan_time(),
            final(self).invalid_since_seq() == old(self).invalid_since_seq(),
    {
        let ghost all = found@;
        let mut counts: Vec<usize> = Vec::new();
        let mut i: usize = 0;
        while i < found.len()
            invariant
                found@ == all,
                i <= all.len(),
                counts@.len() == i,
                forall|j: int| 0 <= j < i ==> #[trigger] counts@[j] == occurrences(all, all[j].id@),
            decreases all.len() - i,
        {
            let c = count_id(&found, &found[i].id);
            counts.push(c);
            i = i + 1;
        }
        let mut dups: Vec<String> = Vec::new();
        i = 0;
        while i < found.len()
            invariant
                found@ == all,
                i <= all.len(),
                counts@.len() == all.len(),
                forall|j: int| 0 <= j < all.len() ==> #[trigger] counts@[j] == occurrences(all, all[j].id@),
                ascending_strings(dups@),
                forall|k: int| 0 <= k < dups@.len() ==> occurrences(all, #[trigger] dups@[k]@) >= 2,
                forall|j: int|
                    0 <= j < i && occurrences(all, #[trigger] all[j].id@) >= 2 ==> exists|k: int|
                        0 <= k < dups@.len() && #[trigger] dups@[k]@ == all[j].id@,
            decreases all.len() - i,
        {
            if counts[i] >= 2 && !listed(&dups, &found[i].id) {
                let ghost before = dups@;
                let pos = insert_string_sorted(&mut dups, found[i].id.clone());
                proof {
                    assert forall|j: int|
                        0 <= j <= i && occurrences(all, #[trigger] all[j].id@) >= 2 implies exists|k: int|
                        0 <= k < dups@.len() && #[trigger] dups@[k]@ == all[j].id@ by {
                        if j == i {
                            assert(dups@[pos as int]@ == all[j].id@);
                        } else {
                            let k0 = choose|k: int| 0 <= k < before.len() && #[trigger] before[k]@ == all[j].id@;
                            if k0 < pos {
                                assert(dups@[k0] == before[k0]);
                            } else {
                                assert(dups@[k0 + 1] == before[k0]);
                            }
                        }
                    }
                }
            }
            i = i + 1;
        }
        let ghost diag0 = self.diagnostics@;
        let mut k: usize = 0;
        while k < dups.len()
            invariant
                k <= dups@.len(),
                self.diagnostics@.len() == diag0.len() + k,
                self.diagnostics@.take(diag0.len() as int) == diag0,
                forall|m: int| 0 <= m < k ==> #[trigger] self.diagnostics@[diag0.len() + m]@
                    == duplicate_message(dups@[m]@),
                self.packages@ == old(self).packages@,
                self.commands@ == old(self).commands@,
                self.retired@ == old(self).retired@,
                self.last_scan == old(self).last_scan,
                self.invalid_since@ == old(self).invalid_since@,
            decreases dups@.len() - k,
        {
            let m = String::from_str("Duplicate mod ID ").concat(dups[k].as_str()).concat(
                ": all copies rejected",
            );
            self.diagnostics.push(m);
            assert(self.diagnostics@.take(diag0.len() as int) =~= diag0);
            k = k + 1;
        }
        let mut rest = found;
        let mut acc: Vec<Found<P>> = Vec::new();
        i = 0;
        while rest.len() > 0
            invariant
                i <= all.len(),
                all.len() <= usize::MAX,
                rest@ == all.skip(i as int),
                rest@.len() == all.len() - i,
                counts@.len() == all.len(),
                forall|j: int| 0 <= j < all.len() ==> #[trigger] counts@[j] == occurrences(all, all[j].id@),
                ascending_found(acc@),
                forall|m: int| 0 <= m < acc@.len() ==> admitted(all, #[trigger] acc@[m]),
                forall|m: int| #![trigger acc@[m]] 0 <= m < acc@.len() ==> exists|j: int| 0 <= j < i && #[trigger] all[j] == acc@[m],
                forall|j: int|
                    0 <= j < i && occurrences(all, #[trigger] all[j].id@) == 1 ==> acc@.contains(all[j]),
            decreases rest@.len(),
        {
            let f = rest.remove(0);
            proof {
                assert(rest@ =~= all.skip(i + 1));
                assert(f == all[i as int]);
            }
            if counts[i] == 1 {
                let ghost before = acc@;
                proof {
                    assert forall|m: int| 0 <= m < before.len() implies #[trigger] before[m].id@ != f.id@ by {
                        let j = choose|j: int| 0 <= j < i && #[trigger] all[j] == before[m];
                        if before[m].id@ == f.id@ {
                            lemma_two_occurrences(all, j, i as int);
                        }
                    }
                    assert(all.contains(f));
                }
                let pos = insert_found_sorted(&mut acc, f);
                proof {
                    assert forall|m: int| #![trigger acc@[m]] 0 <= m < acc@.len() implies exists|j: int|
                        0 <= j < i + 1 && #[trigger] all[j] == acc@[m] by {
                        if m < pos {
                            assert(acc@[m] == before[m]);
                        } else if m == pos {
                            assert(all[i as int] == acc@[m]);
                        } else {
                            assert(acc@[m] == before[m - 1]);
                        }
                    }
                    assert forall|m: int| 0 <= m < acc@.len() implies admitted(all, #[trigger] acc@[m]) by {
                        if m < pos {
                            assert(acc@[m] == before[m]);
                        } else if m > pos {
                            assert(acc@[m] == before[m - 1]);
                        }
                    }
                    assert forall|j: int|
                        0 <= j < i + 1 && occurrences(all, #[trigger] all[j].id@) == 1 implies acc@.contains(
                        all[j],
                    ) by {
                        if j == i {
                            assert(acc@[pos as int] == all[j]);
                        } else {
                            let m = choose|m: int| 0 <= m < before.len() && before[m] == all[j];
                            if m < pos {
                                assert(acc@[m] == before[m]);
                            } else {
                                assert(acc@[m + 1] == before[m]);
                            }
                        }
                    }
                }
            }
            i = i + 1;
        }
        acc
    }

    /// Forgets the missing-since records of the ID.
    fn forget_since(&mut self, id: &String)
        ensures
            forall|x: Seq<char>| #[trigger] since_of(final(self).invalid_since@, x) == if x == id@ {
                None
            } else {
                since_of(old(self).invalid_since@, x)
            },
            final(self).packages@ == old(self).packages@,
            final(self).diagnostics@ == old(self).diagnostics@,
            final(self).commands@ == old(self).commands@,
            final(self).retired@ == old(self).retired@,
            final(self).last_scan == old(self).last_scan,
    {
        let mut rest: Vec<(String, u64)> = Vec::new();
        std::mem::swap(&mut rest, &mut self.invalid_since);
        let ghost all = rest@;
        let mut kept: Vec<(String, u64)> = Vec::new();
        let mut i: usize = 0;
        assert(all.len() == rest.len());
        assert(all.take(0) =~= Seq::<(String, u64)>::empty());
        while rest.len() > 0
            invariant
                i <= all.len(),
                all.len() <= usize::MAX,
                rest@ == all.skip(i as int),
                rest@.len() == all.len() - i,
                forall|x: Seq<char>| #[trigger] since_of(kept@, x) == if x == id@ {
                    None
                } else {
                    since_of(all.take(i as int), x)
                },
            decreases rest@.len(),
        {
            let e = rest.remove(0);
            proof {
                assert(rest@ =~= all.skip(i + 1));
                assert(all.take(i + 1) =~= all.take(i as int).push(e));
            }
            let keep = e.0 != *id;
            let ghost before = kept@;
            if keep {
                kept.push(e);
            }
            proof {
                assert forall|x: Seq<char>| #[trigger] since_of(kept@, x) == if x == id@ {
                    None
                } else {
                    since_of(all.take(i + 1), x)
                } by {
                    lemma_since_push(all.take(i as int), e, x);
                    if keep {
                        lemma_since_push(before, e, x);
                    }
                }
            }
            i = i + 1;
        }
        assert(all.take(i as int) =~= all);
        self.invalid_since = kept;
    }

    /// The missing-since record of the ID.
    fn since(&self, id: &String) -> (r: Option<u64>)
        ensures
            r == since_of(self.invalid_since@, id@),
    {
        let mut i: usize = 0;
        assert(self.invalid_since@.skip(0) =~= self.invalid_since@);
        while i < self.invalid_since.len()
            invariant
                i <= self.invalid_since@.len(),
                since_of(self.invalid_since@, id@) == since_of(self.invalid_since@.skip(i as int), id@),
            decreases self.invalid_since@.len() - i,
        {
            if self.invalid_since[i].0 == *id {
                return Some(self.invalid_since[i].1);
            }
            assert(self.invalid_since@.skip(i as int).drop_first() =~= self.invalid_since@.skip(i + 1));
            i = i + 1;
        }
        None
    }

    /// Settles which installed packages a scan uninstalls, in ascending ID order (see
    /// `removal_due`), given the accepted packages and the IDs whose roots are gone. Keeps a
    /// missing-since record only for the installed packages that stay although this scan did
    /// not accept them (see `since_after_scan`): accepted and uninstalled ones lose theirs.
    pub fn plan_removals<P>(
        &mut self,
        accepted: &Vec<Found<P>>,
        missing: &Vec<String>,
        force: bool,
        now: u64,
    ) -> (r: Vec<String>)
        requires
            old(self).wf(),
        ensures
            final(self).wf(),
            r@.map_values(|s: String| s@) == old(self).packages_seq().filter(
                |p: Package| removal_due(p, accepted@, missing@, force, now, old(self).invalid_since_seq()),
            ).map_values(|p: Package| p.id@),
            forall|x: Seq<char>| #[trigger] since_of(final(self).invalid_since_seq(), x) == since_after_scan(
                old(self).packages_seq(),
                accepted@,
                missing@,
                force,
                now,
                old(self).invalid_since_seq(),
                x,
            ),
            final(self).packages_seq() == old(self).packages_seq(),
            final(self).diagnostics_seq() == old(self).diagnostics_seq(),
            final(self).commands_seq() == old(self).commands_seq(),
            final(self).retired_seq() == old(self).retired_seq(),
            final(self).last_scan_time() == old(self).last_scan_time(),
    {
        let ghost ps = self.packages@;
        let ghost since0 = self.invalid_since@;
        let ghost due = |p: Package| removal_due(p, accepted@, missing@, force, now, since0);
        let mut r: Vec<String> = Vec::new();
        let mut fresh: Vec<(String, u64)> = Vec::new();
        let mut i: usize = 0;
        assert(ps.take(0) =~= Seq::<Package>::empty());
        while i < self.packages.len()
            invariant
                self.packages@ == ps,
                ascending_ids(ps),
                i <= ps.len(),
                due == (|p: Package| removal_due(p, accepted@, missing@, force, now, since0)),
                r@.map_values(|s: String| s@) == ps.take(i as int).filter(due).map_values(
                    |p: Package| p.id@,
                ),
                self.invalid_since@ == since0,
                forall|x: Seq<char>| #[trigger] since_of(fresh@, x) == since_after_scan(
                    ps.take(i as int),
                    accepted@,
                    missing@,
                    force,
                    now,
                    since0,
                    x,
                ),
                self.diagnostics@ == old(self).diagnostics@,
                self.commands@ == old(self).commands@,
                self.retired@ == old(self).retired@,
                self.last_scan == old(self).last_scan,
            decreases ps.len() - i,
        {
            let id = self.packages[i].id.clone();
            let ghost before = fresh@;
            proof {
                assert(ps.take(i + 1) =~= ps.take(i as int).push(ps[i as int]));
                assert(!has_id(ps.take(i as int), id@)) by {
                    if has_id(ps.take(i as int), id@) {
                        let j = choose|j: int| 0 <= j < i && #[trigger] ps.take(i as int)[j].id@ == id@;
                        assert(id_lt(ps[j].id@, ps[i as int].id@));
                    }
                }
                assert(since_of(before, id@) is None);
            }
            let mut accepted_here = false;
            let mut k: usize = 0;
            while k < accepted.len()
                invariant
                    k <= accepted@.len(),
                    accepted_here == exists|m: int| 0 <= m < k && #[trigger] accepted@[m].id@ == id@,
                decreases accepted@.len() - k,
            {
                if accepted[k].id == id {
                    accepted_here = true;
                }
                k = k + 1;
            }
            let mut remove_it = false;
            let mut record: Option<u64> = None;
            if accepted_here {
            } else if listed(missing, &id) || force {
                remove_it = true;
            } else {
                match self.since(&id) {
                    Some(t) => {
                        remove_it = now >= t && now - t >= 750;
                        if !remove_it {
                            record = Some(t);
                        }
                    },
                    None => {
                        record = Some(now);
                    },
                }
            }
            if let Some(t) = record {
                fresh.push((id.clone(), t));
            }
            proof {
                broadcast use Seq::lemma_filter_push;
                assert(remove_it == due(ps[i as int]));
                assert forall|x: Seq<char>| #[trigger] since_of(fresh@, x) == since_after_scan(
                    ps.take(i + 1),
                    accepted@,
                    missing@,
                    force,
                    now,
                    since0,
                    x,
                ) by {
                    if record is Some {
                        lemma_since_push(before, (id, record->0), x);
                    }
                    if x == id@ {
                        assert(has_id(ps.take(i + 1), x)) by {
                            assert(ps.take(i + 1)[i as int].id@ == x);
                        }
                    } else {
                        assert(has_id(ps.take(i + 1), x) == has_id(ps.take(i as int), x)) by {
                            if has_id(ps.take(i + 1), x) {
                                let j = choose|j: int| 0 <= j < i + 1 && #[trigger] ps.take(i + 1)[j].id@ == x;
                                assert(ps.take(i as int)[j].id@ == x);
                            }
                            if has_id(ps.take(i as int), x) {
                                let j = choose|j: int| 0 <= j < i && #[trigger] ps.take(i as int)[j].id@ == x;
                                assert(ps.take(i + 1)[j].id@ == x);
                            }
                        }
                    }
                }
            }
            let ghost r0 = r@;
            if remove_it {
                r.push(id);
            }
            proof {
                broadcast use Seq::lemma_push_map_commute;
                if remove_it {
                    assert(r@ == r0.push(id));
                    assert(ps.take(i + 1).filter(due) == ps.take(i as int).filter(due).push(ps[i as int]));
                } else {
                    assert(ps.take(i + 1).filter(due) == ps.take(i as int).filter(due));
                }
                assert(r@.map_values(|s: String| s@) =~= ps.take(i + 1).filter(due).map_values(
                    |p: Package| p.id@,
                ));
            }
            i = i + 1;
        }
        assert(ps.take(ps.len() as int) =~= ps);
        self.invalid_since = fresh;
        r
    }

    /// Settles how a scan installs the accepted packages (ascending IDs): a new ID is added;
    /// an installed package whose contents changed is reinstalled once the change is due (see
    /// `refresh_due`) and otherwise records the change as pending (see `pending_after`); an
    /// unchanged one forgets any pending change. Steps come in ascending ID order.
    pub fn plan_updates<P>(&mut self, accepted: Vec<Found<P>>, force: bool, now: u64) -> (r: Vec<
        ScanStep<P>,
    >)
        requires
            old(self).wf(),
            ascending_found(accepted@),
        ensures
            final(self).wf(),
            r@ == accepted@.filter(|f: Found<P>| step_needed(old(self).packages_seq(), f, force, now)).map_values(
                |f: Found<P>| step_for(old(self).packages_seq(), f),
            ),
            final(self).packages_seq().len() == old(self).packages_seq().len(),
            forall|i: int| 0 <= i < old(self).packages_seq().len() ==> {
                let p = #[trigger] old(self).packages_seq()[i];
                let q = final(self).packages_seq()[i];
                match accepted_hash(accepted@, p.id@) {
                    Some(h) => q == Package { pending: pending_after(p, h, now), ..p },
                    None => q == p,
                }
            },
            final(self).diagnostics_seq() == old(self).diagnostics_seq(),
            final(self).commands_seq() == old(self).commands_seq(),
            final(self).retired_seq() == old(self).retired_seq(),
            final(self).last_scan_time() == old(self).last_scan_time(),
            final(self).invalid_since_seq() == old(self).invalid_since_seq(),
    {
        let ghost ps0 = self.packages@;
        let ghost all = accepted@;
        let ghost needed = |f: Found<P>| step_needed(ps0, f, force, now);
        let ghost to_step = |f: Found<P>| step_for(ps0, f);
        let mut rest = accepted;
        let mut r: Vec<ScanStep<P>> = Vec::new();
        let mut k: usize = 0;
        assert(all.len() == rest.len());
        assert(all.take(0) =~= Seq::<Found<P>>::empty());
        while rest.len() > 0
            invariant
                k <= all.len(),
                all.len() <= usize::MAX,
                rest@ == all.skip(k as int),
                rest@.len() == all.len() - k,
                ascending_found(all),
                ascending_ids(ps0),
                needed == (|f: Found<P>| step_needed(ps0, f, force, now)),
                to_step == (|f: Found<P>| step_for(ps0, f)),
                r@ == all.take(k as int).filter(needed).map_values(to_step),
                self.packages@.len() == ps0.len(),
                forall|i: int| 0 <= i < ps0.len() ==> {
                    let p = #[trigger] ps0[i];
                    let q = self.packages@[i];
                    match accepted_hash(all.take(k as int), p.id@) {
                        Some(h) => q == Package { pending: pending_after(p, h, now), ..p },
                        None => q == p,
                    }
                },
                self.diagnostics@ == old(self).diagnostics@,
                self.commands@ == old(self).commands@,
                self.retired@ == old(self).retired@,
                self.last_scan == old(self).last_scan,
                self.invalid_since@ == old(self).invalid_since@,
            decreases rest@.len(),
        {
            let f = rest.remove(0);
            let ghost fv = f;
            proof {
                assert(rest@ =~= all.skip(k + 1));
                assert(f == all[k as int]);
                assert(all.take(k + 1) =~= all.take(k as int).push(f));
                broadcast use Seq::lemma_filter_push, Seq::lemma_push_map_commute;
                // no earlier accepted package carries this ID
                assert(accepted_hash(all.take(k as int), f.id@) is None) by {
                    lemma_accepted_hash_some(all.take(k as int), f.id@);
                    if accepts_id(all.take(k as int), f.id@) {
                        let m = choose|m: int| 0 <= m < k && #[trigger] all.take(k as int)[m].id@ == f.id@;
                        assert(id_lt(all[m].id@, all[k as int].id@));
                    }
                }
                assert forall|x: Seq<char>| #[trigger] accepted_hash(all.take(k + 1), x) == match accepted_hash(all.take(k as int), x) {
                    Some(h) => Some(h),
                    None => if f.id@ == x { Some(f.hash) } else { None },
                } by {
                    lemma_accepted_hash_push(all.take(k as int), f, x);
                }
            }
            let ghost r0 = r@;
            let ghost pk0 = self.packages@;
            match self.position(f.id.as_str()) {
                Some(i) => {
                    proof {
                        lemma_package_with(ps0, i as int);
                        assert(pk0[i as int] == ps0[i as int]);
                    }
                    let mut p = self.packages.remove(i);
                    let mut due = false;
                    if p.fingerprint == f.hash {
                        p.pending = None;
                    } else {
                        let same = match p.pending {
                            Some(pp) => pp.0 == f.hash,
                            None => false,
                        };
                        if same {
                            let t = match p.pending {
                                Some(pp) => pp.1,
                                None => 0,
                            };
                            due = now >= t && now - t >= 750;
                        } else {
                            p.pending = Some((f.hash, now));
                        }
                        due = due || force;
                    }
                    self.packages.insert(i, p);
                    proof {
                        assert(due == needed(fv));
                        assert forall|j: int| 0 <= j < ps0.len() implies {
                            let p = #[trigger] ps0[j];
                            let q = self.packages@[j];
                            match accepted_hash(all.take(k + 1), p.id@) {
                                Some(h) => q == Package { pending: pending_after(p, h, now), ..p },
                                None => q == p,
                            }
                        } by {
                            if j != i {
                                assert(self.packages@[j] == pk0[j]);
                                assert(ps0[j].id@ != fv.id@) by {
                                    if j < i {
                                        assert(id_lt(ps0[j].id@, ps0[i as int].id@));
                                    } else {
                                        assert(id_lt(ps0[i as int].id@, ps0[j].id@));
                                    }
                                }
                            }
                        }
                    }
                    if due {
                        r.push(ScanStep::Replace { id: f.id, hash: f.hash, data: f.data });
                    }
                    proof {
                        if due {
                            assert(r@ =~= r0.push(to_step(fv)));
                        }
                    }
                },
                None => {
                    proof {
                        assert(package_with(ps0, fv.id@) is None);
                        assert forall|j: int| 0 <= j < ps0.len() implies {
                            let p = #[trigger] ps0[j];
                            let q = self.packages@[j];
                            match accepted_hash(all.take(k + 1), p.id@) {
                                Some(h) => q == Package { pending: pending_after(p, h, now), ..p },
                                None => q == p,
                            }
                        } by {
                            assert(ps0[j].id@ != fv.id@);
                        }
                    }
                    r.push(ScanStep::Add { id: f.id, hash: f.hash, data: f.data });
                    proof {
                        assert(r@ =~= r0.push(to_step(fv)));
                    }
                },
            }
            k = k + 1;
        }
        assert(all.take(k as int) =~= all);
        assert forall|a: int, b: int| 0 <= a < b < self.packages@.len() implies id_lt(
            #[trigger] self.packages@[a].id@,
            #[trigger] self.packages@[b].id@,
        ) by {
            let pa = ps0[a];
            let pb = ps0[b];
            assert(self.packages@[a].id == pa.id);
            assert(self.packages@[b].id == pb.id);
        }
        assert forall|j: int| 0 <= j < self.packages@.len() implies installable(#[trigger] self.packages@[j]) by {
            let pj = ps0[j];
            assert(installable(pj));
            assert(self.packages@[j].id == pj.id);
            assert(self.packages@[j].manifest == pj.manifest);
        }
        r
    }

    /// Changes a setting of an installed package. Refused for an unknown package, a key its
    /// manifest does not declare, or a value the setting does not accept; otherwise the value
    /// recorded for the key becomes `value`, and what the host does next is returned (see
    /// `AfterSetting`).
    #[verifier::rlimit(80)]
    pub fn setting(&mut self, id: &str, key: &str, value: SettingValue) -> (r: Result<AfterSetting, String>)
        requires
            old(self).wf(),
        ensures
            final(self).wf(),
            !has_id(old(self).packages_seq(), id@) ==> (r matches Err(e) && e@ == "Unknown mod"@),
            final(self).packages_seq().len() == old(self).packages_seq().len(),
            forall|i: int| 0 <= i < old(self).packages_seq().len() ==> {
                let p = #[trigger] old(self).packages_seq()[i];
                let q = final(self).packages_seq()[i];
                if p.id@ == id@ {
                    match schema_of(p.manifest.settings@, key@) {
                        None => r matches Err(e) && e@ == "Unknown setting"@ && q == p,
                        Some(s) => if spec_accepts(s, value) {
                            &&& r matches Ok(a) && after_setting_due(a, q)
                            &&& q == Package { settings: q.settings, ..p }
                            &&& value_set(p.settings@, q.settings@, key@, value)
                        } else {
                            r matches Err(e) && e@ == "Invalid setting value"@ && q == p
                        },
                    }
                } else {
                    q == p
                }
            },
            final(self).commands_seq() == old(self).commands_seq(),
            final(self).retired_seq() == old(self).retired_seq(),
            final(self).diagnostics_seq() == old(self).diagnostics_seq(),
            final(self).last_scan_time() == old(self).last_scan_time(),
            final(self).invalid_since_seq() == old(self).invalid_since_seq(),
    {
        let i = match self.position(id) {
            None => return Err(String::from_str("Unknown mod")),
            Some(i) => i,
        };
        proof {
            self.lemma_unique(i as int, id@);
        }
        let k = String::from_str(key);
        let schema = &self.packages[i].manifest.settings;
        let mut j: usize = 0;
        assert(schema@.skip(0) =~= schema@);
        while j < schema.len() && schema[j].0 != k
            invariant
                j <= schema@.len(),
                k@ == key@,
                schema_of(schema@, key@) == schema_of(schema@.skip(j as int), key@),
            decreases schema@.len() - j,
        {
            assert(schema@.skip(j as int).drop_first() =~= schema@.skip(j + 1));
            j = j + 1;
        }
        if j == schema.len() {
            return Err(String::from_str("Unknown setting"));
        }
        proof {
            assert(schema@.skip(j as int)[0] == schema@[j as int]);
            assert(schema_of(schema@, key@) == Some(schema@[j as int].1));
        }
        if !schema[j].1.accepts(&value) {
            return Err(String::from_str("Invalid setting value"));
        }
        let ghost old_p = self.packages@[i as int];
        let ghost pk = self.packages@;
        let ghost sch = old_p.manifest.settings@;
        proof {
            assert(installable(old_p));
            lemma_fit_index(old_p.settings@, sch, key@);
            assert(spec_accepts(schema_of(sch, key@)->0, value));
        }
        let mut p = self.packages.remove(i);
        let ghost vals = p.settings@;
        let mut m: usize = 0;
        assert(vals.skip(0) =~= vals);
        while m < p.settings.len() && p.settings[m].0 != k
            invariant
                m <= vals.len(),
                p.settings@ == vals,
                k@ == key@,
                value_index(vals, key@) == if value_index(vals.skip(m as int), key@) < 0 {
                    -1
                } else {
                    value_index(vals.skip(m as int), key@) + m
                },
            decreases vals.len() - m,
        {
            assert(vals.skip(m as int).drop_first() =~= vals.skip(m + 1));
            m = m + 1;
        }
        let ghost vv = value;
        if m < p.settings.len() {
            proof {
                assert(vals.skip(m as int)[0] == vals[m as int]);
                assert(value_index(vals, key@) == m);
            }
            let name = p.settings[m].0.clone();
            p.settings.set(m, (name, value));
            assert(p.settings@ =~= vals.update(m as int, (vals[m as int].0, vv)));
            proof {
                assert(sch[m as int].1 == schema_of(sch, key@)->0);
                assert forall|t: int| 0 <= t < sch.len() implies {
                    &&& #[trigger] p.settings@[t].0 == sch[t].0
                    &&& (spec_accepts(sch[t].1, p.settings@[t].1) || p.settings@[t].1 == sch[t].1.default)
                } by {
                    assert(vals == old_p.settings@);
                    assert(vals[t].0 == sch[t].0);
                    if t != m {
                        assert(p.settings@[t] == vals[t]);
                    } else {
                        assert(p.settings@[t] == (vals[t].0, vv));
                        assert(spec_accepts(sch[t].1, vv));
                    }
                }
                assert(settings_fit(p.settings@, sch));
            }
        } else {
            assert(vals.skip(m as int) =~= Seq::<(String, SettingValue)>::empty());
            assert(false);
            p.settings.push((k, value));
        }
        assert(value_set(old_p.settings@, p.settings@, key@, vv));
        let follow = if p.running {
            AfterSetting::Notify { values: copy_values(&p.settings) }
        } else {
            AfterSetting::Save
        };
        let ghost newp = p;
        self.packages.insert(i, p);
        assert(newp == Package { settings: newp.settings, ..old_p });
        assert(after_setting_due(follow, newp));
        proof {
            assert(installable(newp));
            assert forall|t: int| 0 <= t < self.packages@.len() implies installable(#[trigger] self.packages@[t]) by {
                if t != i {
                    assert(self.packages@[t] == pk[t]);
                }
            }
        }
        Ok(follow)
    }

    /// What is saved for an installed package: its enable preference and its current
    /// setting values.
    pub fn saved_form(&self, id: &str) -> (r: Result<Preferences, String>)
        requires
            self.wf(),
        ensures
            r is Ok <==> has_id(self.packages_seq(), id@),
            r matches Err(e) ==> e@ == "Unknown mod"@,
            r matches Ok(f) ==> (package_with(self.packages_seq(), id@) matches Some(p) && f.enabled
                == p.enabled && f.values@ == p.settings@),
    {
        let i = match self.position(id) {
            None => return Err(String::from_str("Unknown mod")),
            Some(i) => i,
        };
        proof {
            self.lemma_unique(i as int, id@);
        }
        let p = &self.packages[i];
        let values = copy_values(&p.settings);
        proof {
            lemma_package_with(self.packages@, i as int);
        }
        Ok(Preferences { enabled: p.enabled, values })
    }

    /// The settings of an installed package with their defaults, in schema order, which is
    /// ascending key order: a reset notifies each key once, in that order.
    pub fn defaults(&self, id: &str) -> (r: Result<Vec<(String, SettingValue)>, String>)
        requires
            self.wf(),
        ensures
            r is Ok <==> has_id(self.packages_seq(), id@),
            r matches Err(e) ==> e@ == "Unknown mod"@,
            r matches Ok(d) ==> (package_with(self.packages_seq(), id@) matches Some(p)
                && defaults_listed(d@, p.manifest.settings@)),
            r matches Ok(d) ==> forall|a: int, b: int| 0 <= a < b < d@.len() ==> id_lt(#[trigger] d@[a].0@, #[trigger] d@[b].0@),
    {
        let i = match self.position(id) {
            None => return Err(String::from_str("Unknown mod")),
            Some(i) => i,
        };
        proof {
            self.lemma_unique(i as int, id@);
        }
        let schema = &self.packages[i].manifest.settings;
        let mut d: Vec<(String, SettingValue)> = Vec::new();
        let mut j: usize = 0;
        while j < schema.len()
            invariant
                i < self.packages@.len(),
                schema == &self.packages@[i as int].manifest.settings,
                j <= schema@.len(),
                d@.len() == j,
                forall|m: int| 0 <= m < j ==> #[trigger] d@[m].0 == schema@[m].0 && d@[m].1 == schema@[m].1.default,
            decreases schema@.len() - j,
        {
            d.push((schema[j].0.clone(), schema[j].1.default.duplicate()));
            j = j + 1;
        }
        proof {
            lemma_package_with(self.packages@, i as int);
            let p = self.packages@[i as int];
            assert(package_with(self.packages_seq(), id@) == Some(p));
            assert(defaults_listed(d@, p.manifest.settings@));
            assert(installable(p));
            assert(crate::manifest::ascending_setting_keys(p.manifest.settings@));
            assert forall|a: int, b: int| 0 <= a < b < d@.len() implies id_lt(#[trigger] d@[a].0@, #[trigger] d@[b].0@) by {
                assert(d@[a].0 == p.manifest.settings@[a].0);
                assert(d@[b].0 == p.manifest.settings@[b].0);
            }
        }
        Ok(d)
    }
}

} // verus!
