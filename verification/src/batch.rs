//! How the host applies one package's staged commands: which batches it refuses, and in
//! which order it applies the rest. Also the single-owner slots for the base font and the
//! native trainer.
use vstd::prelude::*;
use crate::command::Command;
use crate::manager::id_lt;
use crate::text::{chars_le, chars_of, le_chars, lemma_chars_le_total, lemma_chars_le_transitive};

verus! {

broadcast use vstd::set::group_set_axioms;

/// Most visual objects one package may own.
pub const MAX_OBJECTS: usize = 64;

/// The first reason to refuse the rest of a batch, walking it in order from the owner's
/// object keys `keys`: an object command that makes the owner hold more than 64 keys, a second
/// teleport, or a teleport while teleporting is unavailable (`ready` holds the reason).
/// A removal forgets its key.
pub open spec fn batch_refusal(
    keys: Set<Seq<char>>,
    cmds: Seq<Command>,
    teleport_seen: bool,
    ready: Result<(), String>,
) -> Option<Seq<char>>
    decreases cmds.len(),
{
    if cmds.len() == 0 {
        None
    } else {
        let rest = cmds.drop_first();
        match cmds[0] {
            Command::Remove { key } => batch_refusal(keys.remove(key@), rest, teleport_seen, ready),
            Command::Overlay { key, .. } => if keys.insert(key@).len() > MAX_OBJECTS {
                Some("64 owned objects per mod maximum"@)
            } else {
                batch_refusal(keys.insert(key@), rest, teleport_seen, ready)
            },
            Command::Cube { key, .. } => if keys.insert(key@).len() > MAX_OBJECTS {
                Some("64 owned objects per mod maximum"@)
            } else {
                batch_refusal(keys.insert(key@), rest, teleport_seen, ready)
            },
            Command::Teleport { .. } => if teleport_seen {
                Some("Only one teleport per mod command batch"@)
            } else {
                match ready {
                    Err(e) => Some(e@),
                    Ok(_) => batch_refusal(keys, rest, true, ready),
                }
            },
            _ => batch_refusal(keys, rest, teleport_seen, ready),
        }
    }
}

/// The order in which an accepted batch is applied: every command but teleports in staging
/// order, then the teleport.
pub open spec fn application_order(cmds: Seq<Command>) -> Seq<Command> {
    cmds.filter(|c: Command| !(c is Teleport)) + cmds.filter(|c: Command| c is Teleport)
}

/// The views of the keys, as a set.
pub open spec fn key_set(keys: Seq<String>) -> Set<Seq<char>> {
    keys.map_values(|k: String| k@).to_set()
}

/// No key occurs twice.
pub open spec fn distinct_keys(keys: Seq<String>) -> bool {
    forall|i: int, j: int| 0 <= i < keys.len() && 0 <= j < keys.len() && i != j ==> #[trigger] keys[i]@
        != #[trigger] keys[j]@
}

/// A key occurs.
pub open spec fn has_key(keys: Seq<String>, x: Seq<char>) -> bool {
    exists|k: int| 0 <= k < keys.len() && #[trigger] keys[k]@ == x
}

proof fn lemma_key_set(keys: Seq<String>)
    requires
        distinct_keys(keys),
    ensures
        key_set(keys).finite(),
        key_set(keys).len() == keys.len(),
        forall|x: Seq<char>| #[trigger] key_set(keys).contains(x) <==> has_key(keys, x),
{
    let m = keys.map_values(|k: String| k@);
    assert(m.no_duplicates());
    m.unique_seq_to_set();
    vstd::seq_lib::seq_to_set_is_finite(m);
    assert forall|x: Seq<char>| #[trigger] key_set(keys).contains(x) <==> has_key(keys, x) by {
        if key_set(keys).contains(x) {
            let k = choose|k: int| 0 <= k < m.len() && m[k] == x;
            assert(keys[k]@ == x);
        }
        if has_key(keys, x) {
            let k = choose|k: int| 0 <= k < keys.len() && #[trigger] keys[k]@ == x;
            assert(m[k] == x);
        }
    }
}

fn find_key(keys: &Vec<String>, x: &String) -> (r: bool)
    ensures
        r == has_key(keys@, x@),
{
    let mut i: usize = 0;
    while i < keys.len()
        invariant
            i <= keys@.len(),
            forall|k: int| 0 <= k < i ==> #[trigger] keys@[k]@ != x@,
        decreases keys@.len() - i,
    {
        if keys[i] == *x {
            return true;
        }
        i = i + 1;
    }
    false
}

fn remove_key(keys: &mut Vec<String>, x: &String)
    requires
        distinct_keys(old(keys)@),
    ensures
        distinct_keys(final(keys)@),
        forall|y: Seq<char>| #[trigger] has_key(final(keys)@, y) <==> (has_key(old(keys)@, y) && y != x@),
        final(keys)@.len() == old(keys)@.len() - (if has_key(old(keys)@, x@) { 1int } else { 0int }),
{
    let mut rest: Vec<String> = Vec::new();
    std::mem::swap(&mut rest, keys);
    let ghost all = rest@;
    let mut i: usize = 0;
    assert(all.len() == rest.len());
    while rest.len() > 0
        invariant
            i <= all.len(),
            all.len() <= usize::MAX,
            rest@ == all.skip(i as int),
            rest@.len() == all.len() - i,
            distinct_keys(all),
            distinct_keys(keys@),
            forall|y: Seq<char>| #[trigger] has_key(keys@, y) <==> (has_key(all.take(i as int), y) && y != x@),
            keys@.len() == i - (if has_key(all.take(i as int), x@) { 1int } else { 0int }),
        decreases rest@.len(),
    {
        let k = rest.remove(0);
        let ghost before = keys@;
        proof {
            assert(rest@ =~= all.skip(i + 1));
            assert(k == all[i as int]);
            assert(all.take(i + 1) =~= all.take(i as int).push(k));
            assert forall|y: Seq<char>| #[trigger] has_key(all.take(i + 1), y) <==> (has_key(all.take(i as int), y) || k@ == y) by {
                if has_key(all.take(i + 1), y) {
                    let j = choose|j: int| 0 <= j < i + 1 && #[trigger] all.take(i + 1)[j]@ == y;
                    if j < i {
                        assert(all.take(i as int)[j]@ == y);
                    }
                }
                if has_key(all.take(i as int), y) {
                    let j = choose|j: int| 0 <= j < i && #[trigger] all.take(i as int)[j]@ == y;
                    assert(all.take(i + 1)[j]@ == y);
                }
                if k@ == y {
                    assert(all.take(i + 1)[i as int]@ == y);
                }
            }
            assert(!has_key(all.take(i as int), k@)) by {
                if has_key(all.take(i as int), k@) {
                    let j = choose|j: int| 0 <= j < i && #[trigger] all.take(i as int)[j]@ == k@;
                    assert(all[j]@ == all[i as int]@);
                }
            }
        }
        if k != *x {
            keys.push(k);
            proof {
                assert forall|a: int, b: int| 0 <= a < keys@.len() && 0 <= b < keys@.len() && a != b implies #[trigger] keys@[a]@
                    != #[trigger] keys@[b]@ by {
                    if a == before.len() {
                        assert(has_key(before, keys@[b]@)) by {
                            assert(before[b] == keys@[b]);
                        }
                    } else if b == before.len() {
                        assert(has_key(before, keys@[a]@)) by {
                            assert(before[a] == keys@[a]);
                        }
                    } else {
                        assert(before[a] == keys@[a] && before[b] == keys@[b]);
                    }
                }
                assert forall|y: Seq<char>| #[trigger] has_key(keys@, y) <==> (has_key(before, y) || k@ == y) by {
                    if has_key(keys@, y) {
                        let j = choose|j: int| 0 <= j < keys@.len() && #[trigger] keys@[j]@ == y;
                        if j < before.len() {
                            assert(before[j]@ == y);
                        }
                    }
                    if has_key(before, y) {
                        let j = choose|j: int| 0 <= j < before.len() && #[trigger] before[j]@ == y;
                        assert(keys@[j]@ == y);
                    }
                    if k@ == y {
                        assert(keys@[before.len() as int]@ == y);
                    }
                }
            }
        }
        i = i + 1;
    }
    assert(all.take(i as int) =~= all);
}

/// Checks one owner's batch before it is applied and orders it (see `batch_refusal` and
/// `application_order`). `owned` holds the keys of the objects the owner holds now, and
/// `teleport_ready` whether teleporting is available, consulted only for a batch holding a
/// teleport.
#[verifier::loop_isolation(false)]
pub fn plan_batch(owned: Vec<String>, commands: Vec<Command>, teleport_ready: Result<(), String>) -> (r:
    Result<Vec<Command>, String>)
    requires
        distinct_keys(owned@),
    ensures
        match batch_refusal(key_set(owned@), commands@, false, teleport_ready) {
            Some(m) => r matches Err(e) && e@ == m,
            None => r matches Ok(v) && v@ == application_order(commands@),
        },
{
    proof {
        lemma_key_set(owned@);
    }
    let ghost all = commands@;
    let mut keys = owned;
    let mut rest = commands;
    let mut seen = false;
    let mut i: usize = 0;
    let mut first: Vec<Command> = Vec::new();
    let mut last: Vec<Command> = Vec::new();
    let ghost is_tp = |c: Command| c is Teleport;
    let ghost not_tp = |c: Command| !(c is Teleport);
    assert(all.len() == rest.len());
    assert(all.skip(0) =~= all);
    assert(all.take(0) =~= Seq::<Command>::empty());
    while rest.len() > 0
        invariant
            i <= all.len(),
            all.len() <= usize::MAX,
            rest@ == all.skip(i as int),
            rest@.len() == all.len() - i,
            distinct_keys(keys@),
            key_set(keys@).finite(),
            key_set(keys@).len() == keys@.len(),
            batch_refusal(key_set(owned@), all, false, teleport_ready) == batch_refusal(
                key_set(keys@),
                all.skip(i as int),
                seen,
                teleport_ready,
            ),
            is_tp == (|c: Command| c is Teleport),
            not_tp == (|c: Command| !(c is Teleport)),
            first@ == all.take(i as int).filter(not_tp),
            last@ == all.take(i as int).filter(is_tp),
            seen == (last@.len() > 0),
            last@.len() <= 1,
        decreases rest@.len(),
    {
        let c = rest.remove(0);
        proof {
            lemma_key_set(keys@);
            assert(rest@ =~= all.skip(i + 1));
            assert(c == all[i as int]);
            assert(all.skip(i as int)[0] == c);
            assert(all.skip(i as int).drop_first() =~= all.skip(i + 1));
            assert(all.take(i + 1) =~= all.take(i as int).push(c));
            broadcast use Seq::lemma_filter_push;
        }
        let ghost ks = key_set(keys@);
        match &c {
            Command::Remove { key } => {
                let k = key.clone();
                remove_key(&mut keys, &k);
                proof {
                    lemma_key_set(keys@);
                    assert(key_set(keys@) =~= ks.remove(k@));
                }
            },
            Command::Overlay { key, .. } | Command::Cube { key, .. } => {
                let k = key.clone();
                if !find_key(&keys, &k) {
                    let ghost before = keys@;
                    keys.push(k);
                    proof {
                        assert forall|a: int, b: int| 0 <= a < keys@.len() && 0 <= b < keys@.len() && a != b implies #[trigger] keys@[a]@
                            != #[trigger] keys@[b]@ by {
                            if a == before.len() {
                                assert(before[b] == keys@[b]);
                            } else if b == before.len() {
                                assert(before[a] == keys@[a]);
                            } else {
                                assert(before[a] == keys@[a] && before[b] == keys@[b]);
                            }
                        }
                        lemma_key_set(keys@);
                        assert forall|y: Seq<char>| #[trigger] key_set(keys@).contains(y) == ks.insert(k@).contains(y) by {
                            if has_key(keys@, y) && y != k@ {
                                let j = choose|j: int| 0 <= j < keys@.len() && #[trigger] keys@[j]@ == y;
                                if j < before.len() {
                                    assert(before[j]@ == y);
                                }
                            }
                            if has_key(before, y) {
                                let j = choose|j: int| 0 <= j < before.len() && #[trigger] before[j]@ == y;
                                assert(keys@[j]@ == y);
                            }
                            if y == k@ {
                                assert(keys@[before.len() as int]@ == y);
                            }
                        }
                        assert(key_set(keys@) =~= ks.insert(k@));
                    }
                } else {
                    proof {
                        assert(ks.contains(k@));
                        assert(ks.insert(k@) =~= ks);
                    }
                }
                if keys.len() > MAX_OBJECTS {
                    assert(batch_refusal(ks, all.skip(i as int), seen, teleport_ready) == Some("64 owned objects per mod maximum"@));
                    return Err(String::from_str("64 owned objects per mod maximum"));
                }
            },
            Command::Teleport { .. } => {
                if seen {
                    return Err(String::from_str("Only one teleport per mod command batch"));
                }
                if let Err(e) = teleport_ready {
                    assert(batch_refusal(ks, all.skip(i as int), seen, teleport_ready) == Some(e@));
                    return Err(e);
                }
                seen = true;
            },
            _ => {},
        }
        let tp = match &c {
            Command::Teleport { .. } => true,
            _ => false,
        };
        if tp {
            last.push(c);
        } else {
            first.push(c);
        }
        i = i + 1;
    }
    assert(all.take(i as int) =~= all);
    let mut order = first;
    let mut tail = last;
    order.append(&mut tail);
    Ok(order)
}

/// A staged command belongs to the owner.
pub open spec fn owned_by(owner: Seq<char>) -> spec_fn((String, Command)) -> bool {
    |c: (String, Command)| c.0@ == owner
}

/// The commands of one owner, in staging order.
pub open spec fn commands_of(cmds: Seq<(String, Command)>, owner: Seq<char>) -> Seq<Command> {
    cmds.filter(owned_by(owner)).map_values(|c: (String, Command)| c.1)
}

/// Where the owner's group stands, or where it would be inserted.
fn group_slot(groups: &Vec<(String, Vec<Command>)>, owner: &String) -> (pos: usize)
    ensures
        pos <= groups@.len(),
        forall|m: int| 0 <= m < pos ==> chars_le(#[trigger] groups@[m].0@, owner@) && groups@[m].0@ != owner@,
        pos < groups@.len() ==> (groups@[pos as int].0@ == owner@ || !chars_le(groups@[pos as int].0@, owner@)),
{
    let key = chars_of(owner.as_str());
    let mut pos: usize = 0;
    let mut go = true;
    while go && pos < groups.len()
        invariant
            pos <= groups@.len(),
            key@ == owner@,
            forall|m: int| 0 <= m < pos ==> chars_le(#[trigger] groups@[m].0@, owner@) && groups@[m].0@ != owner@,
            !go ==> pos < groups@.len() && (groups@[pos as int].0@ == owner@ || !chars_le(groups@[pos as int].0@, owner@)),
        decreases groups@.len() - pos, (if go { 1int } else { 0int }),
    {
        if groups[pos].0 == *owner {
            go = false;
        } else {
            let gk = chars_of(groups[pos].0.as_str());
            if le_chars(&gk, &key) {
                pos = pos + 1;
            } else {
                go = false;
            }
        }
    }
    pos
}

/// Owners strictly ascend.
pub open spec fn ascending_owners(groups: Seq<(String, Vec<Command>)>) -> bool {
    forall|i: int, j: int| 0 <= i < j < groups.len() ==> id_lt(#[trigger] groups[i].0@, #[trigger] groups[j].0@)
}

/// Some group belongs to the owner.
pub open spec fn owner_listed(groups: Seq<(String, Vec<Command>)>, owner: Seq<char>) -> bool {
    exists|g: int| 0 <= g < groups.len() && #[trigger] groups[g].0@ == owner
}

/// Groups staged commands by owner: one group per owner, owners in ascending order, each
/// group holding that owner's commands in staging order.
#[verifier::loop_isolation(false)]
pub fn group_by_owner(cmds: Vec<(String, Command)>) -> (r: Vec<(String, Vec<Command>)>)
    ensures
        ascending_owners(r@),
        forall|g: int| 0 <= g < r@.len() ==> (#[trigger] r@[g]).1@ == commands_of(cmds@, r@[g].0@),
        forall|g: int| 0 <= g < r@.len() ==> commands_of(cmds@, (#[trigger] r@[g]).0@).len() > 0,
        forall|k: int| 0 <= k < cmds@.len() ==> owner_listed(r@, (#[trigger] cmds@[k]).0@),
{
    let ghost all = cmds@;
    let mut rest = cmds;
    let mut groups: Vec<(String, Vec<Command>)> = Vec::new();
    let mut i: usize = 0;
    assert(all.len() == rest.len());
    assert(all.take(0) =~= Seq::<(String, Command)>::empty());
    while rest.len() > 0
        invariant
            i <= all.len(),
            all.len() <= usize::MAX,
            rest@ == all.skip(i as int),
            rest@.len() == all.len() - i,
            ascending_owners(groups@),
            forall|g: int| 0 <= g < groups@.len() ==> (#[trigger] groups@[g]).1@ == commands_of(all.take(i as int), groups@[g].0@),
            forall|g: int| 0 <= g < groups@.len() ==> commands_of(all.take(i as int), (#[trigger] groups@[g]).0@).len() > 0,
            forall|k: int| 0 <= k < i ==> exists|g: int| 0 <= g < groups@.len() && #[trigger] groups@[g].0@ == (#[trigger] all[k]).0@,
        decreases rest@.len(),
    {
        let c = rest.remove(0);
        let ghost cv = c;
        let ghost before = groups@;
        proof {
            assert(rest@ =~= all.skip(i + 1));
            assert(c == all[i as int]);
            assert(all.take(i + 1) =~= all.take(i as int).push(c));
            broadcast use Seq::lemma_filter_push, Seq::lemma_push_map_commute;
            assert forall|o: Seq<char>| #[trigger] commands_of(all.take(i + 1), o) == if cv.0@ == o {
                commands_of(all.take(i as int), o).push(cv.1)
            } else {
                commands_of(all.take(i as int), o)
            } by {}
        }
        let pos = group_slot(&groups, &c.0);
        if pos < groups.len() && groups[pos].0 == c.0 {
            let (owner, mut list) = groups.remove(pos);
            list.push(c.1);
            groups.insert(pos, (owner, list));
            proof {
                assert forall|g: int| 0 <= g < groups@.len() implies (#[trigger] groups@[g]).1@ == commands_of(all.take(i + 1), groups@[g].0@) by {
                    if g != pos {
                        assert(groups@[g] == before[g]);
                        if g < pos {
                            assert(id_lt(before[g].0@, before[pos as int].0@));
                        } else {
                            assert(id_lt(before[pos as int].0@, before[g].0@));
                        }
                    }
                }
                assert forall|g: int| 0 <= g < groups@.len() implies commands_of(all.take(i + 1), (#[trigger] groups@[g]).0@).len() > 0 by {
                    assert(groups@[g].0 == before[g].0);
                }
                assert forall|k: int| 0 <= k < i + 1 implies exists|g: int| 0 <= g < groups@.len() && #[trigger] groups@[g].0@ == (#[trigger] all[k]).0@ by {
                    if k == i {
                        assert(groups@[pos as int].0@ == all[k].0@);
                    } else {
                        let g = choose|g: int| 0 <= g < before.len() && #[trigger] before[g].0@ == all[k].0@;
                        assert(groups@[g].0 == before[g].0);
                    }
                }
            }
        } else {
            let ghost o = cv.0@;
            proof {
                if pos < before.len() {
                    lemma_chars_le_total(before[pos as int].0@, o);
                }
                assert forall|m: int| pos <= m < before.len() implies id_lt(o, #[trigger] before[m].0@) by {
                    if m > pos {
                        assert(id_lt(before[pos as int].0@, before[m].0@));
                        lemma_chars_le_transitive(o, before[pos as int].0@, before[m].0@);
                        if o == before[m].0@ {
                            crate::text::lemma_chars_le_antisymmetric(before[pos as int].0@, o);
                        }
                    }
                }
                assert forall|m: int| 0 <= m < before.len() implies #[trigger] before[m].0@ != o by {
                    if m >= pos {
                        assert(id_lt(o, before[m].0@));
                    }
                }
            }
            let mut list: Vec<Command> = Vec::new();
            let (owner, cmd) = c;
            list.push(cmd);
            groups.insert(pos, (owner, list));
            proof {
                assert(commands_of(all.take(i as int), o) =~= Seq::<Command>::empty()) by {
                    if commands_of(all.take(i as int), o).len() > 0 {
                        let f = all.take(i as int).filter(owned_by(o));
                        assert(commands_of(all.take(i as int), o).len() == f.len());
                        assert(f.len() > 0);
                        all.take(i as int).lemma_filter_pred(owned_by(o), 0);
                        assert(f.contains(f[0]));
                        all.take(i as int).lemma_filter_contains_rev(owned_by(o), f[0]);
                        let k = choose|k: int| 0 <= k < i && all.take(i as int)[k] == f[0];
                        let g = choose|g: int| 0 <= g < before.len() && #[trigger] before[g].0@ == (#[trigger] all[k]).0@;
                        assert(before[g].0@ == o);
                    }
                }
                assert forall|a: int, b: int| 0 <= a < b < groups@.len() implies id_lt(#[trigger] groups@[a].0@, #[trigger] groups@[b].0@) by {
                    if b < pos {
                        assert(id_lt(before[a].0@, before[b].0@));
                    } else if b == pos {
                        assert(id_lt(before[a].0@, o));
                    } else if a == pos {
                        assert(id_lt(o, before[b - 1].0@));
                    } else if a < pos {
                        assert(id_lt(before[a].0@, before[b - 1].0@));
                    } else {
                        assert(id_lt(before[a - 1].0@, before[b - 1].0@));
                    }
                }
                assert forall|g: int| 0 <= g < groups@.len() implies (#[trigger] groups@[g]).1@ == commands_of(all.take(i + 1), groups@[g].0@) by {
                    if g < pos {
                        assert(groups@[g] == before[g]);
                    } else if g > pos {
                        assert(groups@[g] == before[g - 1]);
                    } else {
                        assert(groups@[g].1@ =~= seq![cv.1]);
                    }
                }
                assert forall|g: int| 0 <= g < groups@.len() implies commands_of(all.take(i + 1), (#[trigger] groups@[g]).0@).len() > 0 by {
                    if g < pos {
                        assert(groups@[g] == before[g]);
                    } else if g > pos {
                        assert(groups@[g] == before[g - 1]);
                    }
                }
                assert forall|k: int| 0 <= k < i + 1 implies exists|g: int| 0 <= g < groups@.len() && #[trigger] groups@[g].0@ == (#[trigger] all[k]).0@ by {
                    if k == i {
                        assert(groups@[pos as int].0@ == all[k].0@);
                    } else {
                        let g = choose|g: int| 0 <= g < before.len() && #[trigger] before[g].0@ == all[k].0@;
                        if g < pos {
                            assert(groups@[g] == before[g]);
                        } else {
                            assert(groups@[g + 1] == before[g]);
                        }
                    }
                }
            }
        }
        i = i + 1;
    }
    assert(all.take(i as int) =~= all);
    assert(i == all.len());
    assert forall|k: int| 0 <= k < all.len() implies owner_listed(groups@, (#[trigger] all[k]).0@) by {
        assert(k < i);
        let x = all[k];
        let g = choose|g: int| 0 <= g < groups@.len() && #[trigger] groups@[g].0@ == x.0@;
        assert(groups@[g].0@ == all[k].0@);
    }
    groups
}

/// What a single-owner slot guards.
#[derive(Debug, Clone, Copy, PartialEq, Eq, Structural)]
pub enum SlotResource {
    /// The native trainer tuning.
    Trainer,
    /// The game-wide base font.
    BaseFont,
}

/// The refusal a second owner of the resource gets.
pub open spec fn refusal(resource: SlotResource) -> Seq<char> {
    match resource {
        SlotResource::Trainer => "Native trainer controls are already owned by another mod"@,
        SlotResource::BaseFont => "The base font is already set by another mod"@,
    }
}

/// A resource that at most one package owns at a time, with what the owner set on it.
pub struct Slot<T> {
    pub held: Option<(String, T)>,
}

impl<T> Slot<T> {
    /// A slot nobody holds.
    pub fn new() -> (s: Self)
        ensures
            s.held is None,
    {
        Slot { held: None }
    }

    /// Whether another package than `id` holds the slot.
    pub fn held_by_other(&self, id: &str) -> (r: bool)
        ensures
            r == (self.held matches Some(h) && h.0@ != id@),
    {
        match &self.held {
            Some(h) => h.0 != String::from_str(id),
            None => false,
        }
    }

    /// Whether `id` holds the slot.
    pub fn held_by(&self, id: &str) -> (r: bool)
        ensures
            r == (self.held matches Some(h) && h.0@ == id@),
    {
        match &self.held {
            Some(h) => h.0 == String::from_str(id),
            None => false,
        }
    }

    /// Gives the slot to `id` with `value` unless another package holds it; returns whether
    /// it was given.
    pub fn claim(&mut self, id: String, value: T) -> (r: bool)
        ensures
            r == !(old(self).held matches Some(h) && h.0@ != id@),
            r ==> final(self).held == Some((id, value)),
            !r ==> final(self).held == old(self).held,
    {
        if self.held_by_other(id.as_str()) {
            false
        } else {
            self.held = Some((id, value));
            true
        }
    }

    /// Claims the slot for `id` (see `claim`); another holder refuses the claim with the
    /// message of the slot's resource.
    pub fn claim_as(&mut self, resource: SlotResource, id: String, value: T) -> (r: Result<(), String>)
        ensures
            r is Ok <==> !(old(self).held matches Some(h) && h.0@ != id@),
            r is Ok ==> final(self).held == Some((id, value)),
            r is Err ==> final(self).held == old(self).held,
            r matches Err(e) ==> e@ == refusal(resource),
    {
        if self.claim(id, value) {
            Ok(())
        } else {
            Err(match resource {
                SlotResource::Trainer => String::from_str("Native trainer controls are already owned by another mod"),
                SlotResource::BaseFont => String::from_str("The base font is already set by another mod"),
            })
        }
    }

    /// Frees the slot.
    pub fn release(&mut self)
        ensures
            final(self).held is None,
    {
        self.held = None;
    }

    /// Frees the slot when `id` holds it; returns whether it did.
    pub fn release_by(&mut self, id: &str) -> (r: bool)
        ensures
            r == (old(self).held matches Some(h) && h.0@ == id@),
            r ==> final(self).held is None,
            !r ==> final(self).held == old(self).held,
    {
        if self.held_by(id) {
            self.held = None;
            true
        } else {
            false
        }
    }

    /// Frees the slot when its holder is among the retired owners; returns whether it did.
    pub fn release_retired(&mut self, retired: &Vec<String>) -> (r: bool)
        ensures
            r == (old(self).held matches Some(h) && has_key(retired@, h.0@)),
            r ==> final(self).held is None,
            !r ==> final(self).held == old(self).held,
    {
        let hit = match &self.held {
            Some(h) => find_key(retired, &h.0),
            None => false,
        };
        if hit {
            self.held = None;
        }
        hit
    }
}

} // verus!
