//! Identifiers: package IDs, setting keys and object keys.
use vstd::prelude::*;
use crate::text::chars_of;

verus! {

/// Characters allowed in package IDs, setting keys and object keys.
pub open spec fn id_char(c: char) -> bool {
    ('a' <= c && c <= 'z') || ('0' <= c && c <= '9') || c == '.' || c == '_' || c == '-'
}

/// `s` begins with the name `d` and `d` is its whole stem: `d` is followed by the end or a dot.
pub open spec fn stem_is(s: Seq<char>, d: Seq<char>) -> bool {
    &&& d.len() <= s.len()
    &&& s.subrange(0, d.len() as int) == d
    &&& (s.len() == d.len() || s[d.len() as int] == '.')
}

/// Windows device names: `con`, `prn`, `aux`, `nul`, `com1`..`com9`, `lpt1`..`lpt9`.
pub open spec fn device_name(d: Seq<char>) -> bool {
    ||| d == seq!['c', 'o', 'n']
    ||| d == seq!['p', 'r', 'n']
    ||| d == seq!['a', 'u', 'x']
    ||| d == seq!['n', 'u', 'l']
    ||| (d.len() == 4 && d.subrange(0, 3) == seq!['c', 'o', 'm'] && '1' <= d[3] && d[3] <= '9')
    ||| (d.len() == 4 && d.subrange(0, 3) == seq!['l', 'p', 't'] && '1' <= d[3] && d[3] <= '9')
}

/// The stem of `s` (what precedes its first dot) is a Windows device name.
pub open spec fn device_stem(s: Seq<char>) -> bool {
    exists|k: int| 3 <= k <= 4 && k <= s.len() && #[trigger] device_name(s.subrange(0, k))
        && stem_is(s, s.subrange(0, k))
}

/// A valid identifier: 1 to 64 characters out of `a-z 0-9 . _ -`, neither `.` nor `..`,
/// and no Windows device-name stem.
pub open spec fn spec_valid_id(s: Seq<char>) -> bool {
    &&& 1 <= s.len() <= 64
    &&& forall|i: int| 0 <= i < s.len() ==> id_char(#[trigger] s[i])
    &&& s != seq!['.']
    &&& s != seq!['.', '.']
    &&& !device_stem(s)
}

fn is_id_char(c: char) -> (b: bool)
    ensures
        b == id_char(c),
{
    ('a' <= c && c <= 'z') || ('0' <= c && c <= '9') || c == '.' || c == '_' || c == '-'
}

/// Whether the first `k` characters of `cs` are a device name ending the stem.
fn device_prefix(cs: &Vec<char>, k: usize) -> (b: bool)
    requires
        3 <= k <= 4,
    ensures
        b == (k <= cs@.len() && device_name(cs@.subrange(0, k as int)) && stem_is(
            cs@,
            cs@.subrange(0, k as int),
        )),
{
    if k > cs.len() {
        return false;
    }
    if k < cs.len() && cs[k] != '.' {
        assert(!stem_is(cs@, cs@.subrange(0, k as int)));
        return false;
    }
    let ghost p = cs@.subrange(0, k as int);
    assert(stem_is(cs@, p));
    let a = cs[0];
    let b = cs[1];
    let c = cs[2];
    let r = if k == 3 {
        (a == 'c' && b == 'o' && c == 'n') || (a == 'p' && b == 'r' && c == 'n') || (a == 'a'
            && b == 'u' && c == 'x') || (a == 'n' && b == 'u' && c == 'l')
    } else {
        let d = cs[3];
        ((a == 'c' && b == 'o' && c == 'm') || (a == 'l' && b == 'p' && c == 't')) && '1' <= d
            && d <= '9'
    };
    proof {
        if k == 3 {
            assert(p =~= seq![a, b, c]);
        } else {
            assert(p =~= seq![a, b, c, cs@[3]]);
            assert(p.subrange(0, 3) =~= seq![a, b, c]);
        }
    }
    r
}

/// Whether `id` is a valid package ID or key (see `spec_valid_id`).
pub fn valid_id(id: &str) -> (b: bool)
    ensures
        b == spec_valid_id(id@),
{
    let cs = chars_of(id);
    let n = cs.len();
    if n < 1 || n > 64 {
        return false;
    }
    let mut i: usize = 0;
    while i < n
        invariant
            n == cs@.len(),
            cs@ == id@,
            i <= n,
            forall|j: int| 0 <= j < i ==> id_char(#[trigger] cs@[j]),
        decreases n - i,
    {
        if !is_id_char(cs[i]) {
            assert(!id_char(id@[i as int]));
            return false;
        }
        i = i + 1;
    }
    if n == 1 && cs[0] == '.' {
        assert(cs@ =~= seq!['.']);
        return false;
    }
    if n == 2 && cs[0] == '.' && cs[1] == '.' {
        assert(cs@ =~= seq!['.', '.']);
        return false;
    }
    proof {
        if n == 1 {
            assert(cs@ != seq!['.'] ==> true);
        }
        if cs@ == seq!['.'] {
            assert(cs@[0] == '.');
        }
        if cs@ == seq!['.', '.'] {
            assert(cs@[0] == '.' && cs@[1] == '.');
        }
    }
    let d3 = device_prefix(&cs, 3);
    let d4 = device_prefix(&cs, 4);
    proof {
        if device_stem(cs@) {
            let k = choose|k: int| 3 <= k <= 4 && k <= cs@.len() && #[trigger] device_name(cs@.subrange(0, k))
                && stem_is(cs@, cs@.subrange(0, k));
            assert(k == 3 || k == 4);
        }
        if d3 {
            assert(device_name(cs@.subrange(0, 3)));
        }
        if d4 {
            assert(device_name(cs@.subrange(0, 4)));
        }
    }
    !(d3 || d4)
}

} // verus!
