//! The package manifest (`mod.json`) and the rules it must follow.
use vstd::prelude::*;
use crate::command::byte_len;
use crate::ident::{spec_valid_id, valid_id};
use crate::paths::{check_relative_path, spec_relative_path_allowed};
use crate::manager::id_lt;
use crate::settings::{spec_setting_valid, Setting};
use crate::text::{chars_of, le_chars, lemma_chars_le_antisymmetric, lemma_chars_le_transitive};

verus! {

/// A package manifest.
#[derive(Debug)]
pub struct Manifest {
    pub id: String,
    pub api: u64,
    pub name: String,
    pub version: String,
    pub author: String,
    pub description: String,
    pub entry: String,
    /// The settings schema, keyed by setting ID; the keys strictly ascend (see
    /// `ascending_setting_keys`), as the keys of a JSON object read into an ordered map do.
    pub settings: Vec<(String, Setting)>,
}

/// The only API version this host implements.
pub const API_VERSION: u64 = 1;

/// Most settings a manifest may declare.
pub const MAX_SETTINGS: usize = 24;

/// An ASCII digit.
pub open spec fn digit(c: char) -> bool {
    '0' <= c && c <= '9'
}

/// `MAJOR.MINOR.PATCH`: three non-empty runs of ASCII digits joined by dots.
pub open spec fn version_ok(v: Seq<char>) -> bool {
    exists|a: int, b: int|
        #![trigger v[a], v[b]]
        0 < a && a + 1 < b && b + 1 < v.len() && v[a] == '.' && v[b] == '.' && forall|i: int|
            0 <= i < v.len() && i != a && i != b ==> digit(#[trigger] v[i])
}

/// Every setting key occurs once and the keys ascend.
pub open spec fn ascending_setting_keys(settings: Seq<(String, Setting)>) -> bool {
    forall|i: int, j: int| 0 <= i < j < settings.len() ==> id_lt(#[trigger] settings[i].0@, #[trigger] settings[j].0@)
}

/// The first rule of the manifest that the manifest breaks, as the message reporting it.
pub open spec fn manifest_problem(m: Manifest) -> Option<Seq<char>> {
    if !spec_valid_id(m.id@) {
        Some("Invalid mod ID"@)
    } else if m.api != API_VERSION {
        Some("Unsupported api: this host implements api 1"@)
    } else if m.name@.len() == 0 || byte_len(m.name@) > 120 {
        Some("Name must be 1 to 120 bytes"@)
    } else if !version_ok(m.version@) {
        Some("Version must be MAJOR.MINOR.PATCH"@)
    } else if byte_len(m.author@) > 120 {
        Some("Author must be at most 120 bytes"@)
    } else if byte_len(m.description@) > 2048 {
        Some("Description must be at most 2048 bytes"@)
    } else if m.entry@.len() == 0 || !spec_relative_path_allowed(m.entry@) {
        Some("Entry must be a relative path without traversal"@)
    } else if m.settings@.len() > MAX_SETTINGS {
        Some("At most 24 settings"@)
    } else if exists|k: int| 0 <= k < m.settings@.len() && !spec_valid_id(#[trigger] m.settings@[k].0@) {
        Some("Invalid setting key"@)
    } else if !ascending_setting_keys(m.settings@) {
        Some("Setting keys must be unique and in ascending order"@)
    } else if exists|k: int| 0 <= k < m.settings@.len() && !spec_setting_valid(#[trigger] m.settings@[k].1) {
        Some("Invalid setting schema"@)
    } else {
        None
    }
}

proof fn lemma_id_lt_transitive(a: Seq<char>, b: Seq<char>, c: Seq<char>)
    requires
        id_lt(a, b),
        id_lt(b, c),
    ensures
        id_lt(a, c),
{
    lemma_chars_le_transitive(a, b, c);
    if a == c {
        lemma_chars_le_antisymmetric(a, b);
    }
}

/// Whether the setting keys strictly ascend.
fn keys_ascend(settings: &Vec<(String, Setting)>) -> (r: bool)
    ensures
        r == ascending_setting_keys(settings@),
{
    let n = settings.len();
    if n == 0 {
        return true;
    }
    let mut k: usize = 1;
    while k < n
        invariant
            1 <= k <= n,
            n == settings@.len(),
            forall|a: int, b: int| 0 <= a < b < k ==> id_lt(#[trigger] settings@[a].0@, #[trigger] settings@[b].0@),
        decreases n - k,
    {
        let before = le_chars(&chars_of(settings[k - 1].0.as_str()), &chars_of(settings[k].0.as_str()));
        let same = settings[k - 1].0 == settings[k].0;
        if !before || same {
            assert(!id_lt(settings@[k - 1].0@, settings@[k as int].0@));
            return false;
        }
        proof {
            assert forall|a: int, b: int| 0 <= a < b < k + 1 implies id_lt(
                #[trigger] settings@[a].0@,
                #[trigger] settings@[b].0@,
            ) by {
                if b == k && a < k - 1 {
                    lemma_id_lt_transitive(settings@[a].0@, settings@[k - 1].0@, settings@[b].0@);
                }
            }
        }
        k = k + 1;
    }
    true
}

fn version_valid(v: &String) -> (r: bool)
    ensures
        r == version_ok(v@),
{
    let cs = crate::text::chars_of(v.as_str());
    let n = cs.len();
    let mut dots: usize = 0;
    let mut a: usize = 0;
    let mut b: usize = 0;
    let mut i: usize = 0;
    while i < n
        invariant
            n == cs@.len(),
            cs@ == v@,
            i <= n,
            dots <= 2,
            dots >= 1 ==> a < i && cs@[a as int] == '.',
            dots >= 2 ==> a < b < i && cs@[b as int] == '.',
            forall|j: int| 0 <= j < i && !(dots >= 1 && j == a) && !(dots >= 2 && j == b) ==> digit(
                #[trigger] cs@[j],
            ),
        decreases n - i,
    {
        let c = cs[i];
        if c == '.' {
            if dots == 0 {
                a = i;
            } else if dots == 1 {
                b = i;
            } else {
                proof {
                    if version_ok(v@) {
                        let (x, y) = choose|x: int, y: int|
                            #![trigger v@[x], v@[y]]
                            0 < x && x + 1 < y && y + 1 < v@.len() && v@[x] == '.' && v@[y] == '.'
                                && forall|k: int| 0 <= k < v@.len() && k != x && k != y ==> digit(#[trigger] v@[k]);
                        assert(!digit(v@[a as int]));
                        assert(!digit(v@[b as int]));
                        assert(!digit(v@[i as int]));
                    }
                }
                return false;
            }
            dots = dots + 1;
        } else if !('0' <= c && c <= '9') {
            proof {
                if version_ok(v@) {
                    let (x, y) = choose|x: int, y: int|
                        #![trigger v@[x], v@[y]]
                        0 < x && x + 1 < y && y + 1 < v@.len() && v@[x] == '.' && v@[y] == '.'
                            && forall|k: int| 0 <= k < v@.len() && k != x && k != y ==> digit(#[trigger] v@[k]);
                    assert(!digit(v@[i as int]));
                }
            }
            return false;
        }
        i = i + 1;
    }
    let ok = dots == 2 && 0 < a && a + 1 < b && b + 1 < n;
    proof {
        if ok {
            assert(v@[a as int] == '.' && v@[b as int] == '.');
        }
        if version_ok(v@) {
            let (x, y) = choose|x: int, y: int|
                #![trigger v@[x], v@[y]]
                0 < x && x + 1 < y && y + 1 < v@.len() && v@[x] == '.' && v@[y] == '.' && forall|k: int|
                    0 <= k < v@.len() && k != x && k != y ==> digit(#[trigger] v@[k]);
            if dots < 2 {
                if dots == 1 && a != x {
                    assert(!digit(v@[x]));
                } else if dots == 1 {
                    assert(!digit(v@[y]));
                } else {
                    assert(!digit(v@[x]));
                }
            } else {
                if a != x && a != y {
                    assert(!digit(v@[a as int]));
                }
                if b != x && b != y {
                    assert(!digit(v@[b as int]));
                }
            }
        }
    }
    ok
}

impl Manifest {
    /// Checks the manifest against its rules, reporting the first it breaks (see
    /// `manifest_problem`).
    #[verifier::loop_isolation(false)]
    pub fn validate(&self) -> (r: Result<(), String>)
        ensures
            r is Ok <==> manifest_problem(*self) is None,
            r matches Err(e) ==> manifest_problem(*self) == Some(e@),
    {
        if !valid_id(self.id.as_str()) {
            return Err(String::from_str("Invalid mod ID"));
        }
        if self.api != API_VERSION {
            return Err(String::from_str("Unsupported api: this host implements api 1"));
        }
        if self.name.as_str().len() == 0 || self.name.as_str().as_bytes().len() > 120 {
            return Err(String::from_str("Name must be 1 to 120 bytes"));
        }
        if !version_valid(&self.version) {
            return Err(String::from_str("Version must be MAJOR.MINOR.PATCH"));
        }
        if self.author.as_str().as_bytes().len() > 120 {
            return Err(String::from_str("Author must be at most 120 bytes"));
        }
        if self.description.as_str().as_bytes().len() > 2048 {
            return Err(String::from_str("Description must be at most 2048 bytes"));
        }
        if self.entry.as_str().is_empty() || check_relative_path(self.entry.as_str()).is_err() {
            return Err(String::from_str("Entry must be a relative path without traversal"));
        }
        if self.settings.len() > MAX_SETTINGS {
            return Err(String::from_str("At most 24 settings"));
        }
        let mut k: usize = 0;
        while k < self.settings.len()
            invariant
                k <= self.settings@.len(),
                forall|j: int| 0 <= j < k ==> spec_valid_id(#[trigger] self.settings@[j].0@),
            decreases self.settings@.len() - k,
        {
            if !valid_id(self.settings[k].0.as_str()) {
                assert(!spec_valid_id(self.settings@[k as int].0@));
                return Err(String::from_str("Invalid setting key"));
            }
            k = k + 1;
        }
        if !keys_ascend(&self.settings) {
            return Err(String::from_str("Setting keys must be unique and in ascending order"));
        }
        k = 0;
        while k < self.settings.len()
            invariant
                k <= self.settings@.len(),
                forall|j: int| 0 <= j < self.settings@.len() ==> spec_valid_id(#[trigger] self.settings@[j].0@),
                forall|j: int| 0 <= j < k ==> spec_setting_valid(#[trigger] self.settings@[j].1),
            decreases self.settings@.len() - k,
        {
            if !self.settings[k].1.valid() {
                assert(!spec_setting_valid(self.settings@[k as int].1));
                return Err(String::from_str("Invalid setting schema"));
            }
            k = k + 1;
        }
        Ok(())
    }
}

} // verus!
