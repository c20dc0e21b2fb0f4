//! Font files that a package ships under a folder, as listed to its scripts.
use vstd::prelude::*;
use crate::paths::{is_separator, separator};
use crate::text::{
    chars_le, chars_of, le_chars, lemma_chars_le_total, lemma_chars_le_transitive, push_char,
    string_of,
};

verus! {

broadcast use vstd::seq_lib::to_multiset_insert, vstd::seq_lib::group_to_multiset_ensures;

/// A font available inside a package folder.
#[derive(Clone, Debug)]
pub struct FontEntry {
    /// Package-relative path with forward slashes (e.g. `fonts/mono.ttf`).
    pub path: String,
    /// File name without the extension.
    pub name: String,
    /// File size in bytes.
    pub size: u64,
}

/// A file met while walking a package folder: its path relative to the package root, as the
/// walk spelled it, and its size in bytes.
#[derive(Clone, Debug)]
pub struct FoundFile {
    pub relative: String,
    pub size: u64,
}

/// Index of the last occurrence of `c` in `s`, or -1.
pub open spec fn last_index_of(s: Seq<char>, c: char) -> int
    decreases s.len(),
{
    if s.len() == 0 {
        -1
    } else if s.last() == c {
        s.len() - 1
    } else {
        last_index_of(s.drop_last(), c)
    }
}

/// `last_index_of` is an index of `s` holding `c`, or -1.
pub proof fn lemma_last_index_bounds(s: Seq<char>, c: char)
    ensures
        -1 <= last_index_of(s, c) < s.len(),
        last_index_of(s, c) >= 0 ==> s[last_index_of(s, c)] == c,
    decreases s.len(),
{
    if s.len() > 0 && s.last() != c {
        lemma_last_index_bounds(s.drop_last(), c);
    }
}

/// Index of the last path separator (`/` or `\`) in `s`, or -1.
pub open spec fn last_separator(s: Seq<char>) -> int
    decreases s.len(),
{
    if s.len() == 0 {
        -1
    } else if separator(s.last()) {
        s.len() - 1
    } else {
        last_separator(s.drop_last())
    }
}

/// `last_separator` is an index of `s` holding a separator, or -1.
pub proof fn lemma_last_separator_bounds(s: Seq<char>)
    ensures
        -1 <= last_separator(s) < s.len(),
        last_separator(s) >= 0 ==> separator(s[last_separator(s)]),
    decreases s.len(),
{
    if s.len() > 0 && !separator(s.last()) {
        lemma_last_separator_bounds(s.drop_last());
    }
}

/// One past the index of the last separator in `s` (zero when there is none).
pub(crate) fn after_last_separator(s: &Vec<char>) -> (r: usize)
    ensures
        r == last_separator(s@) + 1,
        r <= s@.len(),
{
    proof {
        lemma_last_separator_bounds(s@);
    }
    let mut i: usize = s.len();
    assert(s@.subrange(0, i as int) =~= s@);
    while i > 0 && !is_separator(s[i - 1])
        invariant
            i <= s@.len(),
            last_separator(s@) == last_separator(s@.subrange(0, i as int)),
        decreases i,
    {
        assert(s@.subrange(0, i as int).drop_last() =~= s@.subrange(0, i - 1));
        i = i - 1;
    }
    i
}

/// The last component of a file path (after its last `/` or `\`).
pub open spec fn file_name(p: Seq<char>) -> Seq<char> {
    p.subrange(last_separator(p) + 1, p.len() as int)
}

/// `e` is `ttf` or `otf`, ignoring ASCII case.
pub open spec fn font_extension(e: Seq<char>) -> bool {
    &&& e.len() == 3
    &&& (e[0] == 't' || e[0] == 'T' || e[0] == 'o' || e[0] == 'O')
    &&& (e[1] == 't' || e[1] == 'T')
    &&& (e[2] == 'f' || e[2] == 'F')
}

/// The file name has an extension (text after a last dot that is not its first character)
/// and that extension is `ttf` or `otf` in any ASCII case.
pub open spec fn is_font_file(p: Seq<char>) -> bool {
    let n = file_name(p);
    let d = last_index_of(n, '.');
    d > 0 && font_extension(n.subrange(d + 1, n.len() as int))
}

/// The file name without its extension.
pub open spec fn font_name(p: Seq<char>) -> Seq<char> {
    let n = file_name(p);
    n.subrange(0, last_index_of(n, '.'))
}

/// The path with every backslash turned into a forward slash.
pub open spec fn forward_slashes(p: Seq<char>) -> Seq<char> {
    p.map_values(|c: char| if c == '\\' { '/' } else { c })
}

/// The listing entry of a found file, when it is a font: (path, name, size).
pub open spec fn expected_entry(f: FoundFile) -> Option<(Seq<char>, Seq<char>, u64)> {
    if is_font_file(f.relative@) {
        Some((forward_slashes(f.relative@), font_name(f.relative@), f.size))
    } else {
        None
    }
}

/// The contents of an entry: (path, name, size).
pub open spec fn entry_view(e: FontEntry) -> (Seq<char>, Seq<char>, u64) {
    (e.path@, e.name@, e.size)
}

/// Entries appear in ascending order of path.
pub open spec fn sorted_by_path(s: Seq<(Seq<char>, Seq<char>, u64)>) -> bool {
    forall|i: int, j: int| 0 <= i < j < s.len() ==> chars_le(#[trigger] s[i].0, #[trigger] s[j].0)
}

/// One past the index of the last `c` in `s` (zero when there is none).
pub(crate) fn after_last(s: &Vec<char>, c: char) -> (r: usize)
    ensures
        r == last_index_of(s@, c) + 1,
        r <= s@.len(),
{
    proof {
        lemma_last_index_bounds(s@, c);
    }
    let mut i: usize = s.len();
    assert(s@.subrange(0, i as int) =~= s@);
    while i > 0 && s[i - 1] != c
        invariant
            i <= s@.len(),
            last_index_of(s@, c) == last_index_of(s@.subrange(0, i as int), c),
        decreases i,
    {
        assert(s@.subrange(0, i as int).drop_last() =~= s@.subrange(0, i - 1));
        i = i - 1;
    }
    i
}

/// The listing entry of a file when it is a font.
fn entry_of(f: &FoundFile) -> (r: Option<FontEntry>)
    ensures
        r matches Some(e) ==> expected_entry(*f) == Some(entry_view(e)),
        r is None ==> expected_entry(*f) is None,
{
    let p = chars_of(f.relative.as_str());
    let start = after_last_separator(&p);
    let mut name: Vec<char> = Vec::new();
    let mut k = start;
    while k < p.len()
        invariant
            start <= k <= p@.len(),
            name@ == p@.subrange(start as int, k as int),
        decreases p@.len() - k,
    {
        name.push(p[k]);
        k = k + 1;
    }
    assert(name@ == file_name(p@));
    let dot = after_last(&name, '.');
    if dot <= 1 || name.len() - dot != 3 {
        return None;
    }
    let d = dot - 1;
    let (e0, e1, e2) = (name[d + 1], name[d + 2], name[d + 3]);
    assert(name@.subrange(d + 1, name@.len() as int) =~= seq![e0, e1, e2]);
    if !((e0 == 't' || e0 == 'T' || e0 == 'o' || e0 == 'O') && (e1 == 't' || e1 == 'T') && (e2
        == 'f' || e2 == 'F')) {
        return None;
    }
    let mut stem: Vec<char> = Vec::new();
    let mut j: usize = 0;
    while j < d
        invariant
            j <= d < name@.len(),
            stem@ == name@.subrange(0, j as int),
        decreases d - j,
    {
        stem.push(name[j]);
        j = j + 1;
    }
    let mut path = String::new();
    let mut i: usize = 0;
    while i < p.len()
        invariant
            i <= p@.len(),
            path@ == forward_slashes(p@.subrange(0, i as int)),
        decreases p@.len() - i,
    {
        let c = p[i];
        push_char(&mut path, if c == '\\' { '/' } else { c });
        assert(forward_slashes(p@.subrange(0, i + 1)) =~= forward_slashes(
            p@.subrange(0, i as int),
        ).push(if c == '\\' { '/' } else { c }));
        i = i + 1;
    }
    assert(p@.subrange(0, p@.len() as int) =~= p@);
    Some(FontEntry { path, name: string_of(&stem), size: f.size })
}

/// The entries due for the found files, in the order the files were found.
pub open spec fn listing(found: Seq<FoundFile>) -> Seq<(Seq<char>, Seq<char>, u64)> {
    found.filter_map(|f: FoundFile| expected_entry(f))
}

/// The contents of a sequence of entries.
pub open spec fn views(entries: Seq<FontEntry>) -> Seq<(Seq<char>, Seq<char>, u64)> {
    entries.map_values(|e: FontEntry| entry_view(e))
}

/// Lists the fonts among the files found under a package folder: every file whose extension
/// is `ttf` or `otf` in any ASCII case, with its path spelled with forward slashes, its name
/// without extension and its size, sorted by path.
pub fn list_font_entries(found: &Vec<FoundFile>) -> (r: Vec<FontEntry>)
    ensures
        views(r@).to_multiset() == listing(found@).to_multiset(),
        sorted_by_path(views(r@)),
{
    let mut out: Vec<FontEntry> = Vec::new();
    let mut keys: Vec<Vec<char>> = Vec::new();
    let mut i: usize = 0;
    assert(views(out@).to_multiset() =~= listing(found@.take(0)).to_multiset()) by {
        assert(found@.take(0) =~= Seq::<FoundFile>::empty());
        assert(views(out@) =~= Seq::<(Seq<char>, Seq<char>, u64)>::empty());
    }
    while i < found.len()
        invariant
            i <= found@.len(),
            keys@.len() == out@.len(),
            forall|k: int| 0 <= k < keys@.len() ==> #[trigger] keys@[k]@ == out@[k].path@,
            views(out@).to_multiset() == listing(found@.take(i as int)).to_multiset(),
            sorted_by_path(views(out@)),
        decreases found@.len() - i,
    {
        proof {
            found@.lemma_filter_map_take_succ(|f: FoundFile| expected_entry(f), i as int);
        }
        match entry_of(&found[i]) {
            None => {
                assert(listing(found@.take(i + 1)) =~= listing(found@.take(i as int)));
            },
            Some(e) => {
                let key = chars_of(e.path.as_str());
                let mut pos: usize = 0;
                while pos < keys.len() && le_chars(&keys[pos], &key)
                    invariant
                        pos <= keys@.len(),
                        keys@.len() == out@.len(),
                        key@ == e.path@,
                        forall|k: int| 0 <= k < keys@.len() ==> #[trigger] keys@[k]@ == out@[k].path@,
                        forall|m: int| 0 <= m < pos ==> chars_le(#[trigger] out@[m].path@, e.path@),
                    decreases keys@.len() - pos,
                {
                    pos = pos + 1;
                }
                let ghost old_out = out@;
                let ghost old_keys = keys@;
                let ghost ev = entry_view(e);
                proof {
                    let vs = views(old_out);
                    if pos < old_out.len() {
                        lemma_chars_le_total(old_out[pos as int].path@, e.path@);
                        assert forall|m: int| pos <= m < old_out.len() implies chars_le(
                            e.path@,
                            #[trigger] old_out[m].path@,
                        ) by {
                            if m > pos {
                                assert(chars_le(vs[pos as int].0, vs[m].0));
                            } else {
                                crate::text::lemma_chars_le_reflexive(old_out[m].path@);
                            }
                            lemma_chars_le_transitive(
                                e.path@,
                                old_out[pos as int].path@,
                                old_out[m].path@,
                            );
                        }
                    }
                }
                out.insert(pos, e);
                keys.insert(pos, key);
                proof {
                    let vs = views(old_out);
                    assert(views(out@) =~= vs.insert(pos as int, ev));
                    assert(listing(found@.take(i + 1)) =~= listing(found@.take(i as int)).push(ev));
                    assert forall|k: int| 0 <= k < keys@.len() implies #[trigger] keys@[k]@
                        == out@[k].path@ by {
                        if k < pos {
                            assert(keys@[k] == old_keys[k]);
                        } else if k == pos {
                        } else {
                            assert(keys@[k] == old_keys[k - 1]);
                        }
                    }
                    assert forall|a: int, b: int| 0 <= a < b < views(out@).len() implies chars_le(
                        #[trigger] views(out@)[a].0,
                        #[trigger] views(out@)[b].0,
                    ) by {
                        let w = views(out@);
                        if b < pos {
                            assert(chars_le(vs[a].0, vs[b].0));
                        } else if b == pos {
                            assert(chars_le(old_out[a].path@, e.path@));
                        } else if a == pos {
                            assert(chars_le(e.path@, old_out[b - 1].path@));
                        } else if a < pos {
                            assert(chars_le(vs[a].0, vs[b - 1].0));
                        } else {
                            assert(chars_le(vs[a - 1].0, vs[b - 1].0));
                        }
                    }
                }
            },
        }
        i = i + 1;
    }
    assert(found@.take(found@.len() as int) =~= found@);
    out
}

} // verus!
