//! The visual objects (screen texts and cubes) that packages own, keyed by owner and
//! owner-local key. Texts and cubes share one key space per owner; the order of the table is
//! the order of the text rows on screen.
use vstd::prelude::*;
use crate::batch::{distinct_keys, has_key, MAX_OBJECTS};
use crate::manager::id_lt;
use crate::text::{
    chars_le, chars_of, le_chars, lemma_chars_le_antisymmetric, lemma_chars_le_reflexive,
    lemma_chars_le_total, lemma_chars_le_transitive,
};

verus! {

broadcast use vstd::seq_lib::group_seq_properties;

/// The key of an entry: its owner's ID and the owner-local key.
pub open spec fn entry_key<H>(e: (String, String, H)) -> (Seq<char>, Seq<char>) {
    (e.0@, e.1@)
}

/// Keys order by owner, then by owner-local key.
pub open spec fn key_lt(a: (Seq<char>, Seq<char>), b: (Seq<char>, Seq<char>)) -> bool {
    id_lt(a.0, b.0) || (a.0 == b.0 && id_lt(a.1, b.1))
}

/// Entries strictly ascend by key, so every key occurs once.
pub open spec fn ascending_entries<H>(s: Seq<(String, String, H)>) -> bool {
    forall|i: int, j: int| 0 <= i < j < s.len() ==> key_lt(#[trigger] entry_key(s[i]), #[trigger] entry_key(s[j]))
}

/// Some entry has the key.
pub open spec fn has_entry<H>(s: Seq<(String, String, H)>, owner: Seq<char>, key: Seq<char>) -> bool {
    exists|i: int| 0 <= i < s.len() && #[trigger] entry_key(s[i]) == (owner, key)
}

/// The handle of the object with the key, if there is one.
pub open spec fn lookup<H>(s: Seq<(String, String, H)>, owner: Seq<char>, key: Seq<char>) -> Option<H> {
    if has_entry(s, owner, key) {
        Some(s[choose|i: int| 0 <= i < s.len() && #[trigger] entry_key(s[i]) == (owner, key)].2)
    } else {
        None
    }
}

/// The entry belongs to `owner`.
pub open spec fn of_owner<H>(owner: Seq<char>) -> spec_fn((String, String, H)) -> bool {
    |e: (String, String, H)| e.0@ == owner
}

/// How many objects `owner` holds.
pub open spec fn owned_count<H>(s: Seq<(String, String, H)>, owner: Seq<char>) -> nat {
    s.filter(of_owner(owner)).len()
}

/// The entry belongs to one of the listed owners.
pub open spec fn of_listed<H>(owners: Seq<String>) -> spec_fn((String, String, H)) -> bool {
    |e: (String, String, H)| has_key(owners, e.0@)
}

/// The entry belongs to none of the listed owners.
pub open spec fn of_unlisted<H>(owners: Seq<String>) -> spec_fn((String, String, H)) -> bool {
    |e: (String, String, H)| !has_key(owners, e.0@)
}

/// The handles of the entries, in order.
pub open spec fn handles<H>(s: Seq<(String, String, H)>) -> Seq<H> {
    s.map_values(|e: (String, String, H)| e.2)
}

proof fn lemma_key_lt_transitive(a: (Seq<char>, Seq<char>), b: (Seq<char>, Seq<char>), c: (Seq<char>, Seq<char>))
    requires
        key_lt(a, b),
        key_lt(b, c),
    ensures
        key_lt(a, c),
{
    if id_lt(a.0, b.0) && id_lt(b.0, c.0) {
        lemma_chars_le_transitive(a.0, b.0, c.0);
        if a.0 == c.0 {
            lemma_chars_le_antisymmetric(a.0, b.0);
        }
    } else if a.0 == b.0 && b.0 == c.0 {
        lemma_chars_le_transitive(a.1, b.1, c.1);
        if a.1 == c.1 {
            lemma_chars_le_antisymmetric(a.1, b.1);
        }
    }
}

proof fn lemma_key_lt_total(a: (Seq<char>, Seq<char>), b: (Seq<char>, Seq<char>))
    ensures
        a == b || key_lt(a, b) || key_lt(b, a),
{
    lemma_chars_le_total(a.0, b.0);
    if a.0 == b.0 {
        lemma_chars_le_total(a.1, b.1);
    }
}

proof fn lemma_key_lt_asymmetric(a: (Seq<char>, Seq<char>), b: (Seq<char>, Seq<char>))
    requires
        key_lt(a, b),
    ensures
        !key_lt(b, a),
        a != b,
{
    if id_lt(a.0, b.0) && id_lt(b.0, a.0) {
        lemma_chars_le_antisymmetric(a.0, b.0);
    }
    if a.0 == b.0 && id_lt(a.1, b.1) && id_lt(b.1, a.1) {
        lemma_chars_le_antisymmetric(a.1, b.1);
    }
}

/// In ascending entries the entry at `i` is the one its key finds.
proof fn lemma_lookup_at<H>(s: Seq<(String, String, H)>, i: int)
    requires
        ascending_entries(s),
        0 <= i < s.len(),
    ensures
        has_entry(s, s[i].0@, s[i].1@),
        lookup(s, s[i].0@, s[i].1@) == Some(s[i].2),
{
    let k = entry_key(s[i]);
    assert(entry_key(s[i]) == (s[i].0@, s[i].1@));
    let j = choose|j: int| 0 <= j < s.len() && #[trigger] entry_key(s[j]) == (s[i].0@, s[i].1@);
    if j < i {
        lemma_key_lt_asymmetric(entry_key(s[j]), entry_key(s[i]));
    } else if j > i {
        lemma_key_lt_asymmetric(entry_key(s[i]), entry_key(s[j]));
    }
}

/// Whether two character sequences are equal.
fn same_chars(a: &Vec<char>, b: &Vec<char>) -> (r: bool)
    ensures
        r == (a@ == b@),
{
    let x = le_chars(a, b);
    let y = le_chars(b, a);
    proof {
        if x && y {
            lemma_chars_le_antisymmetric(a@, b@);
        }
        if a@ == b@ {
            lemma_chars_le_reflexive(a@);
        }
    }
    x && y
}

/// Whether the key `(ao, ak)` precedes the key `(bo, bk)`.
fn key_less(ao: &Vec<char>, ak: &Vec<char>, bo: &Vec<char>, bk: &Vec<char>) -> (r: bool)
    ensures
        r == key_lt((ao@, ak@), (bo@, bk@)),
{
    let owner_le = le_chars(ao, bo);
    let owner_eq = same_chars(ao, bo);
    if owner_le && !owner_eq {
        true
    } else if owner_eq {
        le_chars(ak, bk) && !same_chars(ak, bk)
    } else {
        false
    }
}

/// Where the key stands among ascending entries, or where it would be inserted, and whether
/// it is there.
fn locate<H>(s: &Vec<(String, String, H)>, owner: &Vec<char>, key: &Vec<char>) -> (r: (usize, bool))
    requires
        ascending_entries(s@),
    ensures
        r.0 <= s@.len(),
        forall|m: int| 0 <= m < r.0 ==> key_lt(#[trigger] entry_key(s@[m]), (owner@, key@)),
        r.1 ==> r.0 < s@.len() && entry_key(s@[r.0 as int]) == (owner@, key@),
        !r.1 ==> forall|m: int| r.0 <= m < s@.len() ==> key_lt((owner@, key@), #[trigger] entry_key(s@[m])),
{
    let mut i: usize = 0;
    while i < s.len()
        invariant
            i <= s@.len(),
            ascending_entries(s@),
            forall|m: int| 0 <= m < i ==> key_lt(#[trigger] entry_key(s@[m]), (owner@, key@)),
        decreases s@.len() - i,
    {
        let eo = chars_of(s[i].0.as_str());
        let ek = chars_of(s[i].1.as_str());
        if !key_less(&eo, &ek, owner, key) {
            let found = same_chars(&eo, owner) && same_chars(&ek, key);
            proof {
                let here = entry_key(s@[i as int]);
                assert(here == (eo@, ek@));
                if !found {
                    lemma_key_lt_total(here, (owner@, key@));
                    assert forall|m: int| i <= m < s@.len() implies key_lt(
                        (owner@, key@),
                        #[trigger] entry_key(s@[m]),
                    ) by {
                        if m > i {
                            lemma_key_lt_transitive((owner@, key@), here, entry_key(s@[m]));
                        }
                    }
                }
            }
            return (i, found);
        }
        i = i + 1;
    }
    (i, false)
}

/// The objects packages own, each with the host's handle for it.
pub struct ObjectTable<H> {
    entries: Vec<(String, String, H)>,
}

impl<H> ObjectTable<H> {
    /// The entries, in ascending key order.
    pub closed spec fn entries_seq(self) -> Seq<(String, String, H)> {
        self.entries@
    }

    /// Keys strictly ascend.
    pub closed spec fn wf(self) -> bool {
        ascending_entries(self.entries@)
    }

    /// An empty table.
    pub fn new() -> (t: Self)
        ensures
            t.wf(),
            t.entries_seq().len() == 0,
    {
        ObjectTable { entries: Vec::new() }
    }

    /// The entries in ascending order of owner, then key: the order of text rows.
    pub fn entries(&self) -> (r: &Vec<(String, String, H)>)
        requires
            self.wf(),
        ensures
            r@ == self.entries_seq(),
            ascending_entries(r@),
    {
        &self.entries
    }

    /// The handle of the owner's object with this key.
    pub fn get(&self, owner: &str, key: &str) -> (r: Option<&H>)
        requires
            self.wf(),
        ensures
            match r {
                Some(h) => lookup(self.entries_seq(), owner@, key@) == Some(*h),
                None => lookup(self.entries_seq(), owner@, key@) is None,
            },
    {
        let (i, found) = locate(&self.entries, &chars_of(owner), &chars_of(key));
        if found {
            proof {
                lemma_lookup_at(self.entries@, i as int);
            }
            Some(&self.entries[i].2)
        } else {
            None
        }
    }

    /// How many objects the owner holds.
    pub fn count_of(&self, owner: &str) -> (r: usize)
        ensures
            r == owned_count(self.entries_seq(), owner@),
    {
        let ghost s = self.entries@;
        let ghost p = of_owner::<H>(owner@);
        let o = String::from_str(owner);
        let mut n: usize = 0;
        let mut i: usize = 0;
        assert(s.take(0) =~= Seq::<(String, String, H)>::empty());
        while i < self.entries.len()
            invariant
                s == self.entries@,
                p == of_owner::<H>(owner@),
                o@ == owner@,
                i <= s.len(),
                n == s.take(i as int).filter(p).len(),
                n <= i,
            decreases s.len() - i,
        {
            proof {
                broadcast use Seq::lemma_filter_push;
                assert(s.take(i + 1) =~= s.take(i as int).push(s[i as int]));
            }
            if self.entries[i].0 == o {
                n = n + 1;
            }
            i = i + 1;
        }
        assert(s.take(i as int) =~= s);
        n
    }

    /// The keys of the owner's objects, each once.
    pub fn keys_of(&self, owner: &str) -> (r: Vec<String>)
        requires
            self.wf(),
        ensures
            distinct_keys(r@),
            forall|m: int| 0 <= m < r@.len() ==> has_entry(self.entries_seq(), owner@, #[trigger] r@[m]@),
            forall|k: Seq<char>| #[trigger] has_entry(self.entries_seq(), owner@, k) ==> has_key(r@, k),
    {
        let ghost s = self.entries@;
        let o = String::from_str(owner);
        let mut r: Vec<String> = Vec::new();
        let mut i: usize = 0;
        while i < self.entries.len()
            invariant
                s == self.entries@,
                ascending_entries(s),
                o@ == owner@,
                i <= s.len(),
                forall|a: int, b: int| 0 <= a < b < r@.len() ==> id_lt(#[trigger] r@[a]@, #[trigger] r@[b]@),
                forall|m: int, t: int|
                    0 <= m < r@.len() && i <= t < s.len() && s[t].0@ == owner@ ==> id_lt(
                        #[trigger] r@[m]@,
                        #[trigger] s[t].1@,
                    ),
                forall|m: int| 0 <= m < r@.len() ==> has_entry(s, owner@, #[trigger] r@[m]@),
                forall|t: int| 0 <= t < i && #[trigger] s[t].0@ == owner@ ==> has_key(r@, s[t].1@),
            decreases s.len() - i,
        {
            if self.entries[i].0 == o {
                let k = self.entries[i].1.clone();
                proof {
                    assert(entry_key(s[i as int]) == (owner@, k@));
                    assert forall|t: int| i < t < s.len() && s[t].0@ == owner@ implies id_lt(
                        k@,
                        #[trigger] s[t].1@,
                    ) by {
                        assert(key_lt(entry_key(s[i as int]), entry_key(s[t])));
                    }
                }
                let ghost before = r@;
                r.push(k);
                proof {
                    assert(r@[before.len() as int] == k);
                    assert forall|t: int| 0 <= t < i + 1 && #[trigger] s[t].0@ == owner@ implies has_key(
                        r@,
                        s[t].1@,
                    ) by {
                        if t < i {
                            let m = choose|m: int| 0 <= m < before.len() && #[trigger] before[m]@ == s[t].1@;
                            assert(r@[m] == before[m]);
                        } else {
                            assert(r@[before.len() as int]@ == s[t].1@);
                        }
                    }
                }
            }
            i = i + 1;
        }
        proof {
            assert forall|a: int, b: int|
                0 <= a < r@.len() && 0 <= b < r@.len() && a != b implies #[trigger] r@[a]@ != #[trigger] r@[b]@ by {
                if a < b {
                    assert(id_lt(r@[a]@, r@[b]@));
                } else {
                    assert(id_lt(r@[b]@, r@[a]@));
                }
            }
            assert forall|k: Seq<char>| #[trigger] has_entry(s, owner@, k) implies has_key(r@, k) by {
                let t = choose|t: int| 0 <= t < s.len() && #[trigger] entry_key(s[t]) == (owner@, k);
                assert(s[t].0@ == owner@);
            }
        }
        r
    }

    /// Refuses an object command that would make the owner hold more than 64 objects: one
    /// that creates a new key while the owner already holds 64. Removals and updates of held
    /// keys always pass.
    pub fn check_capacity(&self, owner: &str, key: &str, removing: bool) -> (r: Result<(), String>)
        requires
            self.wf(),
        ensures
            r is Err <==> !removing && lookup(self.entries_seq(), owner@, key@) is None && owned_count(
                self.entries_seq(),
                owner@,
            ) >= MAX_OBJECTS,
            r matches Err(e) ==> e@ == "64 owned objects per mod maximum"@,
    {
        if removing {
            return Ok(());
        }
        let held = self.get(owner, key).is_some();
        if !held && self.count_of(owner) >= MAX_OBJECTS {
            Err(String::from_str("64 owned objects per mod maximum"))
        } else {
            Ok(())
        }
    }

    /// Records the owner's object under the key, returning the handle it replaces.
    #[verifier::rlimit(40)]
    pub fn insert(&mut self, owner: String, key: String, handle: H) -> (r: Option<H>)
        requires
            old(self).wf(),
        ensures
            final(self).wf(),
            r == lookup(old(self).entries_seq(), owner@, key@),
            lookup(final(self).entries_seq(), owner@, key@) == Some(handle),
            forall|o: Seq<char>, k: Seq<char>|
                !(o == owner@ && k == key@) ==> #[trigger] lookup(final(self).entries_seq(), o, k) == lookup(
                    old(self).entries_seq(),
                    o,
                    k,
                ),
    {
        let ghost s = self.entries@;
        let ghost nk = (owner@, key@);
        let (i, found) = locate(&self.entries, &chars_of(owner.as_str()), &chars_of(key.as_str()));
        if found {
            proof {
                lemma_lookup_at(s, i as int);
            }
            let previous = self.entries.remove(i);
            self.entries.insert(i, (owner, key, handle));
            let ghost t = self.entries@;
            proof {
                assert(t =~= s.update(i as int, t[i as int]));
                assert(entry_key(t[i as int]) == entry_key(s[i as int]));
                assert forall|a: int, b: int| 0 <= a < b < t.len() implies key_lt(
                    #[trigger] entry_key(t[a]),
                    #[trigger] entry_key(t[b]),
                ) by {
                    assert(key_lt(entry_key(s[a]), entry_key(s[b])));
                }
                lemma_lookup_at(t, i as int);
                assert forall|o: Seq<char>, k: Seq<char>| !(o == nk.0 && k == nk.1) implies #[trigger] lookup(
                    t,
                    o,
                    k,
                ) == lookup(s, o, k) by {
                    if has_entry(s, o, k) {
                        let j = choose|j: int| 0 <= j < s.len() && #[trigger] entry_key(s[j]) == (o, k);
                        lemma_lookup_at(s, j);
                        lemma_lookup_at(t, j);
                    } else if has_entry(t, o, k) {
                        let j = choose|j: int| 0 <= j < t.len() && #[trigger] entry_key(t[j]) == (o, k);
                        assert(entry_key(s[j]) == (o, k));
                    }
                }
            }
            Some(previous.2)
        } else {
            proof {
                if has_entry(s, nk.0, nk.1) {
                    let j = choose|j: int| 0 <= j < s.len() && #[trigger] entry_key(s[j]) == nk;
                    if j < i {
                        assert(key_lt(entry_key(s[j]), nk));
                    } else {
                        assert(key_lt(nk, entry_key(s[j])));
                    }
                }
            }
            self.entries.insert(i, (owner, key, handle));
            let ghost t = self.entries@;
            proof {
                assert(t =~= s.insert(i as int, t[i as int]));
                assert(entry_key(t[i as int]) == nk);
                assert forall|a: int, b: int| 0 <= a < b < t.len() implies key_lt(
                    #[trigger] entry_key(t[a]),
                    #[trigger] entry_key(t[b]),
                ) by {
                    if b < i {
                        assert(key_lt(entry_key(s[a]), entry_key(s[b])));
                    } else if b == i {
                        assert(key_lt(entry_key(s[a]), nk));
                    } else if a == i {
                        assert(key_lt(nk, entry_key(s[b - 1])));
                    } else if a < i {
                        assert(key_lt(entry_key(s[a]), entry_key(s[b - 1])));
                    } else {
                        assert(key_lt(entry_key(s[a - 1]), entry_key(s[b - 1])));
                    }
                }
                lemma_lookup_at(t, i as int);
                assert forall|o: Seq<char>, k: Seq<char>| !(o == nk.0 && k == nk.1) implies #[trigger] lookup(
                    t,
                    o,
                    k,
                ) == lookup(s, o, k) by {
                    if has_entry(s, o, k) {
                        let j = choose|j: int| 0 <= j < s.len() && #[trigger] entry_key(s[j]) == (o, k);
                        lemma_lookup_at(s, j);
                        let j2 = if j < i { j } else { j + 1 };
                        assert(t[j2] == s[j]);
                        lemma_lookup_at(t, j2);
                    } else if has_entry(t, o, k) {
                        let j = choose|j: int| 0 <= j < t.len() && #[trigger] entry_key(t[j]) == (o, k);
                        if j < i {
                            assert(entry_key(s[j]) == (o, k));
                        } else if j > i {
                            assert(entry_key(s[j - 1]) == (o, k));
                        }
                    }
                }
            }
            None
        }
    }

    /// Forgets the owner's object with the key, returning its handle.
    #[verifier::rlimit(40)]
    pub fn remove(&mut self, owner: &str, key: &str) -> (r: Option<H>)
        requires
            old(self).wf(),
        ensures
            final(self).wf(),
            r == lookup(old(self).entries_seq(), owner@, key@),
            lookup(final(self).entries_seq(), owner@, key@) is None,
            forall|o: Seq<char>, k: Seq<char>|
                !(o == owner@ && k == key@) ==> #[trigger] lookup(final(self).entries_seq(), o, k) == lookup(
                    old(self).entries_seq(),
                    o,
                    k,
                ),
    {
        let ghost s = self.entries@;
        let ghost nk = (owner@, key@);
        let (i, found) = locate(&self.entries, &chars_of(owner), &chars_of(key));
        if !found {
            proof {
                if has_entry(s, nk.0, nk.1) {
                    let j = choose|j: int| 0 <= j < s.len() && #[trigger] entry_key(s[j]) == nk;
                    if j < i {
                        assert(key_lt(entry_key(s[j]), nk));
                    } else {
                        assert(key_lt(nk, entry_key(s[j])));
                    }
                }
            }
            return None;
        }
        proof {
            lemma_lookup_at(s, i as int);
        }
        let gone = self.entries.remove(i);
        let ghost t = self.entries@;
        proof {
            assert(t =~= s.remove(i as int));
            assert forall|a: int, b: int| 0 <= a < b < t.len() implies key_lt(
                #[trigger] entry_key(t[a]),
                #[trigger] entry_key(t[b]),
            ) by {
                let a0 = if a < i { a } else { a + 1 };
                let b0 = if b < i { b } else { b + 1 };
                assert(t[a] == s[a0]);
                assert(t[b] == s[b0]);
                assert(key_lt(entry_key(s[a0]), entry_key(s[b0])));
            }
            if has_entry(t, nk.0, nk.1) {
                let j = choose|j: int| 0 <= j < t.len() && #[trigger] entry_key(t[j]) == nk;
                let j0 = if j < i { j } else { j + 1 };
                assert(t[j] == s[j0]);
                if j0 < i {
                    assert(key_lt(entry_key(s[j0]), entry_key(s[i as int])));
                } else {
                    assert(key_lt(entry_key(s[i as int]), entry_key(s[j0])));
                }
            }
            assert forall|o: Seq<char>, k: Seq<char>| !(o == nk.0 && k == nk.1) implies #[trigger] lookup(
                t,
                o,
                k,
            ) == lookup(s, o, k) by {
                if has_entry(s, o, k) {
                    let j = choose|j: int| 0 <= j < s.len() && #[trigger] entry_key(s[j]) == (o, k);
                    lemma_lookup_at(s, j);
                    assert(j != i);
                    let j2 = if j < i { j } else { j - 1 };
                    assert(t[j2] == s[j]);
                    lemma_lookup_at(t, j2);
                } else if has_entry(t, o, k) {
                    let j = choose|j: int| 0 <= j < t.len() && #[trigger] entry_key(t[j]) == (o, k);
                    let j0 = if j < i { j } else { j + 1 };
                    assert(t[j] == s[j0]);
                    assert(entry_key(s[j0]) == (o, k));
                }
            }
        }
        Some(gone.2)
    }

    /// Forgets every object of the listed owners, returning their handles in table order.
    pub fn retire(&mut self, owners: &Vec<String>) -> (r: Vec<H>)
        requires
            old(self).wf(),
        ensures
            final(self).wf(),
            final(self).entries_seq() == old(self).entries_seq().filter(of_unlisted::<H>(owners@)),
            r@ == handles(old(self).entries_seq().filter(of_listed::<H>(owners@))),
    {
        let ghost s = self.entries@;
        let ghost keep = of_unlisted::<H>(owners@);
        let ghost drop = of_listed::<H>(owners@);
        let mut rest: Vec<(String, String, H)> = Vec::new();
        std::mem::swap(&mut rest, &mut self.entries);
        let n = rest.len();
        assert(n == s.len());
        let mut kept: Vec<(String, String, H)> = Vec::new();
        let mut gone: Vec<H> = Vec::new();
        let mut i: usize = 0;
        assert(s.take(0) =~= Seq::<(String, String, H)>::empty());
        assert(s.skip(0) =~= s);
        while rest.len() > 0
            invariant
                i <= s.len(),
                s.len() <= usize::MAX,
                rest@ == s.skip(i as int),
                rest@.len() == s.len() - i,
                ascending_entries(s),
                keep == of_unlisted::<H>(owners@),
                drop == of_listed::<H>(owners@),
                kept@ == s.take(i as int).filter(keep),
                gone@ == handles(s.take(i as int).filter(drop)),
                ascending_entries(kept@),
                forall|m: int, t: int| 0 <= m < kept@.len() && i <= t < s.len() ==> key_lt(
                    #[trigger] entry_key(kept@[m]),
                    #[trigger] entry_key(s[t]),
                ),
            decreases rest@.len(),
        {
            let e = rest.remove(0);
            proof {
                broadcast use Seq::lemma_filter_push;
                assert(e == s[i as int]);
                assert(s.take(i + 1) =~= s.take(i as int).push(e));
                assert(rest@ =~= s.skip(i + 1));
            }
            let mut listed = false;
            let mut k: usize = 0;
            while k < owners.len()
                invariant
                    k <= owners@.len(),
                    listed == exists|m: int| 0 <= m < k && #[trigger] owners@[m]@ == e.0@,
                decreases owners@.len() - k,
            {
                if owners[k] == e.0 {
                    listed = true;
                }
                k = k + 1;
            }
            proof {
                assert(listed == has_key(owners@, e.0@));
            }
            if listed {
                let ghost g0 = gone@;
                gone.push(e.2);
                proof {
                    let f = s.take(i as int).filter(drop);
                    assert(s.take(i + 1).filter(drop) == f.push(e));
                    assert(handles(f.push(e)) =~= handles(f).push(e.2));
                    assert(s.take(i + 1).filter(keep) == s.take(i as int).filter(keep));
                }
            } else {
                let ghost k0 = kept@;
                proof {
                    assert forall|t: int| i < t < s.len() implies key_lt(entry_key(e), #[trigger] entry_key(s[t])) by {
                        assert(key_lt(entry_key(s[i as int]), entry_key(s[t])));
                    }
                }
                kept.push(e);
                proof {
                    assert(s.take(i + 1).filter(keep) == s.take(i as int).filter(keep).push(e));
                    assert(s.take(i + 1).filter(drop) == s.take(i as int).filter(drop));
                    assert forall|a: int, b: int| 0 <= a < b < kept@.len() implies key_lt(
                        #[trigger] entry_key(kept@[a]),
                        #[trigger] entry_key(kept@[b]),
                    ) by {
                        if b == k0.len() {
                            assert(key_lt(entry_key(k0[a]), entry_key(s[i as int])));
                        } else {
                            assert(key_lt(entry_key(k0[a]), entry_key(k0[b])));
                        }
                    }
                }
            }
            i = i + 1;
        }
        assert(s.take(i as int) =~= s);
        self.entries = kept;
        gone
    }
}

} // verus!
