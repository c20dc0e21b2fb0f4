//! Package-relative paths and the bounds on what a read may return.
use vstd::prelude::*;
use crate::text::chars_of;

verus! {

/// A path separator: `/`, or `\` as on the Windows hosts the game ships for.
pub open spec fn separator(c: char) -> bool {
    c == '/' || c == '\\'
}

/// Whether `c` is a path separator.
pub fn is_separator(c: char) -> (r: bool)
    ensures
        r == separator(c),
{
    c == '/' || c == '\\'
}

/// A `..` component starts at index `i` of the path `s`.
pub open spec fn parent_component_at(s: Seq<char>, i: int) -> bool {
    &&& 0 <= i
    &&& i + 1 < s.len()
    &&& s[i] == '.'
    &&& s[i + 1] == '.'
    &&& (i == 0 || separator(s[i - 1]))
    &&& (i + 2 == s.len() || separator(s[i + 2]))
}

/// The path starts at the root directory.
pub open spec fn rooted(s: Seq<char>) -> bool {
    s.len() >= 1 && separator(s[0])
}

/// The path starts with a `.` component (the only place where a `.` component is kept).
pub open spec fn starts_with_current_dir(s: Seq<char>) -> bool {
    s.len() >= 1 && s[0] == '.' && (s.len() == 1 || separator(s[1]))
}

/// The path read as components (split at `/` and `\`) holds only plain names: it is not rooted,
/// does not start with `.`, has no `..` component, and has no `:` anywhere.
pub open spec fn spec_relative_path_allowed(s: Seq<char>) -> bool {
    &&& !rooted(s)
    &&& !starts_with_current_dir(s)
    &&& !(exists|i: int| parent_component_at(s, i))
    &&& !s.contains(':')
}

/// Refuses a package-relative path that is absolute, starts with `.`, climbs with `..`
/// or holds a `:`; accepts every other path, the empty one included.
pub fn check_relative_path(relative: &str) -> (r: Result<(), String>)
    ensures
        r is Ok <==> spec_relative_path_allowed(relative@),
        r matches Err(e) ==> e@ == "Use a relative path without traversal"@,
{
    let cs = chars_of(relative);
    let n = cs.len();
    let mut ok = !(n >= 1 && is_separator(cs[0])) && !(n >= 1 && cs[0] == '.' && (n == 1
        || is_separator(cs[1])));
    let mut i: usize = 0;
    while i < n
        invariant
            n == cs@.len(),
            cs@ == relative@,
            i <= n,
            ok == (!rooted(cs@) && !starts_with_current_dir(cs@) && (forall|j: int|
                0 <= j < i ==> !parent_component_at(cs@, j)) && (forall|j: int|
                0 <= j < i ==> cs@[j] != ':')),
        decreases n - i,
    {
        let here = cs[i] == ':' || (i + 1 < n && cs[i] == '.' && cs[i + 1] == '.' && (i == 0
            || is_separator(cs[i - 1])) && (i + 2 == n || is_separator(cs[i + 2])));
        proof {
            if !here {
                assert(!parent_component_at(cs@, i as int));
            }
            if here && cs@[i as int] != ':' {
                assert(parent_component_at(cs@, i as int));
            }
        }
        ok = ok && !here;
        i = i + 1;
    }
    proof {
        if ok {
            assert(!(exists|i: int| parent_component_at(cs@, i)));
            assert(!cs@.contains(':'));
        }
        if !ok && !rooted(cs@) && !starts_with_current_dir(cs@) {
            let j = choose|j: int| 0 <= j < n && (parent_component_at(cs@, j) || cs@[j] == ':');
            if cs@[j] == ':' {
                assert(cs@.contains(':'));
            }
        }
    }
    if ok {
        Ok(())
    } else {
        Err(String::from_str("Use a relative path without traversal"))
    }
}

/// Refuses a read that produced more than `limit` bytes.
pub fn check_read_size(len: usize, limit: u64) -> (r: Result<(), String>)
    ensures
        r is Ok <==> len <= limit,
        r matches Err(e) ==> e@ == "Asset too large"@,
{
    if len as u64 > limit {
        Err(String::from_str("Asset too large"))
    } else {
        Ok(())
    }
}

/// Refuses a path whose canonical form does not lie under the canonical package root.
pub fn check_contained(inside_root: bool) -> (r: Result<(), String>)
    ensures
        r is Ok <==> inside_root,
        r matches Err(e) ==> e@ == "Asset escapes mod root"@,
{
    if inside_root {
        Ok(())
    } else {
        Err(String::from_str("Asset escapes mod root"))
    }
}

} // verus!
