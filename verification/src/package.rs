//! Package discovery and script entry rules.
use vstd::prelude::*;
use crate::fonts::{
    after_last, after_last_separator, file_name, last_index_of, lemma_last_index_bounds,
    lemma_last_separator_bounds,
};
use crate::text::chars_of;

verus! {

/// Most packages a scan installs; later ones in path order are ignored.
pub const MAX_PACKAGES: usize = 128;

/// The package sources a scan inspects, out of all it found in sorted order: the first 128.
/// A diagnostic reports that more were found.
pub fn within_package_limit<T>(sources: Vec<T>) -> (r: (Vec<T>, Option<String>))
    ensures
        sources@.len() <= MAX_PACKAGES ==> r.0@ == sources@ && r.1 is None,
        sources@.len() > MAX_PACKAGES ==> r.0@ == sources@.take(MAX_PACKAGES as int),
        sources@.len() > MAX_PACKAGES ==> (r.1 matches Some(m)
            && m@ == "Only the first 128 packages are supported; remove excess packages"@),
{
    let mut kept = sources;
    if kept.len() > MAX_PACKAGES {
        kept.truncate(MAX_PACKAGES);
        (kept, Some(String::from_str("Only the first 128 packages are supported; remove excess packages")))
    } else {
        (kept, None)
    }
}

/// Most bytes a package's Lua state may allocate (8 MiB).
pub const LUA_MEMORY_LIMIT: usize = 8388608;

/// Instructions between two checks of the instruction budget.
pub const BUDGET_INTERVAL: u32 = 1000;

/// Budget checks an evaluation or callback may pass before it is stopped.
pub const INSTRUCTION_BUDGET: usize = 100;

/// What is left of the instruction budget after a check: one check less, or an error that
/// stops the running code once none is left.
pub fn spend_budget(remaining: usize) -> (r: Result<usize, String>)
    ensures
        remaining > 0 ==> r == Ok::<usize, String>((remaining - 1) as usize),
        remaining == 0 ==> (r matches Err(e) && e@ == "Lua instruction budget exhausted"@),
{
    if remaining == 0 {
        Err(String::from_str("Lua instruction budget exhausted"))
    } else {
        Ok(remaining - 1)
    }
}

/// The standard globals a package's Lua state goes without: protected calls (so quota
/// errors cannot be caught and retried), code loading, garbage-collector control and printing.
pub open spec fn removed_global(name: Seq<char>) -> bool {
    ||| name == "pcall"@
    ||| name == "xpcall"@
    ||| name == "load"@
    ||| name == "loadfile"@
    ||| name == "dofile"@
    ||| name == "collectgarbage"@
    ||| name == "print"@
}

/// The removed globals, each once.
pub fn removed_globals() -> (r: Vec<&'static str>)
    ensures
        r@.len() == 7,
        forall|i: int| 0 <= i < r@.len() ==> removed_global(#[trigger] r@[i]@),
        forall|n: Seq<char>| removed_global(n) ==> exists|i: int| 0 <= i < r@.len() && #[trigger] r@[i]@ == n,
{
    proof {
        reveal_strlit("pcall");
        reveal_strlit("xpcall");
        reveal_strlit("load");
        reveal_strlit("loadfile");
        reveal_strlit("dofile");
        reveal_strlit("collectgarbage");
        reveal_strlit("print");
    }
    let r = vec!["pcall", "xpcall", "load", "loadfile", "dofile", "collectgarbage", "print"];
    proof {
        assert forall|n: Seq<char>| removed_global(n) implies exists|i: int| 0 <= i < r@.len() && #[trigger] r@[i]@ == n by {
            if n == "pcall"@ { assert(r@[0]@ == n); }
            else if n == "xpcall"@ { assert(r@[1]@ == n); }
            else if n == "load"@ { assert(r@[2]@ == n); }
            else if n == "loadfile"@ { assert(r@[3]@ == n); }
            else if n == "dofile"@ { assert(r@[4]@ == n); }
            else if n == "collectgarbage"@ { assert(r@[5]@ == n); }
            else { assert(r@[6]@ == n); }
        }
    }
    r
}

/// Size limit of `mod.json` in bytes.
pub const MANIFEST_LIMIT: u64 = 65536;

/// Size limit of a script entry in bytes.
pub const ENTRY_LIMIT: u64 = 262144;

/// Size limit of a text asset read by a script, in bytes.
pub const TEXT_LIMIT: u64 = 262144;

/// Size limit of a body-animation asset in bytes.
pub const ANIMATION_LIMIT: u64 = 4194304;

/// Size limit of a font asset in bytes.
pub const FONT_LIMIT: u64 = 16777216;

/// Most files and directories a package may hold.
pub const MAX_ENTRIES: usize = 512;

/// Most bytes the files of a package may hold together (64 MiB).
pub const MAX_CONTENT_BYTES: u64 = 67108864;

/// What a walk over a package's contents has counted so far: files and directories met, and
/// the bytes of the files.
pub struct ContentTally {
    pub entries: usize,
    pub bytes: u64,
}

impl ContentTally {
    /// Within the package limits.
    pub open spec fn wf(self) -> bool {
        self.entries <= MAX_ENTRIES && self.bytes <= MAX_CONTENT_BYTES
    }

    /// Nothing counted yet.
    pub fn new() -> (t: Self)
        ensures
            t.entries == 0,
            t.bytes == 0,
            t.wf(),
    {
        ContentTally { entries: 0, bytes: 0 }
    }

    /// Counts one more file or directory; the 513th is refused and the tally is left as it
    /// was.
    pub fn count_entry(&mut self) -> (r: Result<(), String>)
        requires
            old(self).wf(),
        ensures
            final(self).wf(),
            r is Ok <==> old(self).entries < MAX_ENTRIES,
            r is Ok ==> final(self).entries == old(self).entries + 1,
            r is Err ==> final(self).entries == old(self).entries,
            final(self).bytes == old(self).bytes,
            r matches Err(e) ==> e@ == "Package exceeds 512 files/directories"@,
    {
        if self.entries >= MAX_ENTRIES {
            return Err(String::from_str("Package exceeds 512 files/directories"));
        }
        self.entries = self.entries + 1;
        Ok(())
    }

    /// Adds the size of a file; a total above 64 MiB is refused and the tally is left as it
    /// was.
    pub fn add_file(&mut self, len: u64) -> (r: Result<(), String>)
        requires
            old(self).wf(),
        ensures
            final(self).wf(),
            r is Ok <==> old(self).bytes + len <= MAX_CONTENT_BYTES,
            r is Ok ==> final(self).bytes == old(self).bytes + len,
            r is Err ==> final(self).bytes == old(self).bytes,
            final(self).entries == old(self).entries,
            r matches Err(e) ==> e@ == "Package exceeds 64 MiB"@,
    {
        if len > MAX_CONTENT_BYTES - self.bytes {
            return Err(String::from_str("Package exceeds 64 MiB"));
        }
        self.bytes = self.bytes + len;
        Ok(())
    }
}

/// Refuses a symbolic link inside a package.
pub fn check_not_symlink(is_symlink: bool) -> (r: Result<(), String>)
    ensures
        r is Ok <==> !is_symlink,
        r matches Err(e) ==> e@ == "Symlinks are not supported"@,
{
    if is_symlink {
        Err(String::from_str("Symlinks are not supported"))
    } else {
        Ok(())
    }
}

/// `e` is `zip`, ignoring ASCII case.
pub open spec fn zip_extension(e: Seq<char>) -> bool {
    &&& e.len() == 3
    &&& (e[0] == 'z' || e[0] == 'Z')
    &&& (e[1] == 'i' || e[1] == 'I')
    &&& (e[2] == 'p' || e[2] == 'P')
}

/// A directory entry is a package source when its name does not start with a dot and it is a
/// directory or a file whose extension is `zip` in any ASCII case.
pub open spec fn spec_package_source(name: Seq<char>, is_dir: bool) -> bool {
    let n = file_name(name);
    let d = last_index_of(n, '.');
    &&& !(n.len() > 0 && n[0] == '.')
    &&& (is_dir || (d > 0 && zip_extension(n.subrange(d + 1, n.len() as int))))
}

/// Whether a directory entry (its name and whether it is a directory) is a package source.
pub fn package_source(name: &str, is_dir: bool) -> (r: bool)
    ensures
        r == spec_package_source(name@, is_dir),
{
    let cs = chars_of(name);
    proof {
        lemma_last_separator_bounds(cs@);
    }
    let start = after_last_separator(&cs);
    let mut n: Vec<char> = Vec::new();
    let mut k = start;
    while k < cs.len()
        invariant
            start <= k <= cs@.len(),
            n@ == cs@.subrange(start as int, k as int),
        decreases cs@.len() - k,
    {
        n.push(cs[k]);
        k = k + 1;
    }
    assert(n@ == file_name(name@));
    if n.len() > 0 && n[0] == '.' {
        return false;
    }
    if is_dir {
        return true;
    }
    proof {
        lemma_last_index_bounds(n@, '.');
    }
    let dot = after_last(&n, '.');
    if dot <= 1 || n.len() - dot != 3 {
        return false;
    }
    let d = dot - 1;
    let (a, b, c) = (n[d + 1], n[d + 2], n[d + 3]);
    assert(n@.subrange(d + 1, n@.len() as int) =~= seq![a, b, c]);
    (a == 'z' || a == 'Z') && (b == 'i' || b == 'I') && (c == 'p' || c == 'P')
}

/// Lua bytecode starts with the escape character.
pub open spec fn spec_bytecode(source: Seq<char>) -> bool {
    source.len() > 0 && source[0] == '\x1b'
}

/// Refuses script source that is Lua bytecode.
pub fn check_source_text(source: &str) -> (r: Result<(), String>)
    ensures
        r is Ok <==> !spec_bytecode(source@),
        r matches Err(e) ==> e@ == "Lua bytecode is unsupported"@,
{
    if source.unicode_len() > 0 && source.get_char(0) == '\x1b' {
        Err(String::from_str("Lua bytecode is unsupported"))
    } else {
        Ok(())
    }
}

/// The message with which compiling `source` as a Lua text chunk fails, or `None` when it
/// compiles.
pub uninterp spec fn lua_compile_error(source: Seq<char>) -> Option<Seq<char>>;

/// Compiles `source` as a Lua text chunk in a fresh interpreter, without running it
/// (`mlua::Lua::new`, `Lua::load`, `Chunk::set_mode(ChunkMode::Text)`,
/// `Chunk::into_function`). Trusted: the outcome depends on `source` alone and is named
/// `lua_compile_error`; an error is carried as the `Display` text of `mlua::Error`. Creating
/// the interpreter panics only when its memory cannot be allocated.
#[verifier::external_body]
fn compile_lua(source: &str) -> (r: Option<String>)
    ensures
        match r {
            None => lua_compile_error(source@) is None,
            Some(e) => lua_compile_error(source@) == Some(e@),
        },
{
    match mlua::Lua::new().load(source).set_mode(mlua::chunk::ChunkMode::Text).into_function() {
        Ok(_) => None,
        Err(e) => Some(e.to_string()),
    }
}

/// Checks a script entry before it is installed: bytecode is refused, and the text must
/// compile as Lua; nothing in it runs.
pub fn check_entry_source(source: &str) -> (r: Result<(), String>)
    ensures
        spec_bytecode(source@) ==> (r matches Err(e) && e@ == "Lua bytecode is unsupported"@),
        !spec_bytecode(source@) ==> match lua_compile_error(source@) {
            None => r is Ok,
            Some(m) => r matches Err(e) && e@ == m,
        },
{
    check_source_text(source)?;
    match compile_lua(source) {
        None => Ok(()),
        Some(e) => Err(e),
    }
}

/// The callbacks a script may return.
pub open spec fn spec_callback_name(name: Seq<char>) -> bool {
    ||| name == "on_load"@
    ||| name == "on_unload"@
    ||| name == "on_update"@
    ||| name == "on_fixed_update"@
    ||| name == "on_event"@
    ||| name == "on_settings"@
}

/// Refuses a returned field that is not a known callback or not a function.
pub fn check_callback(name: &str, is_function: bool) -> (r: Result<(), String>)
    ensures
        r is Ok <==> spec_callback_name(name@) && is_function,
        r matches Err(e) ==> e@ == "Unknown callback or non-function: "@ + name@,
{
    let known = ["on_load", "on_unload", "on_update", "on_fixed_update", "on_event", "on_settings"];
    let n = String::from_str(name);
    let mut found = false;
    let mut i: usize = 0;
    proof {
        reveal_strlit("on_load");
        reveal_strlit("on_unload");
        reveal_strlit("on_update");
        reveal_strlit("on_fixed_update");
        reveal_strlit("on_event");
        reveal_strlit("on_settings");
    }
    while i < 6
        invariant
            i <= 6,
            known@ == seq!["on_load", "on_unload", "on_update", "on_fixed_update", "on_event", "on_settings"],
            n@ == name@,
            found == exists|j: int| 0 <= j < i && #[trigger] known@[j]@ == name@,
        decreases 6 - i,
    {
        if String::from_str(known[i]) == n {
            found = true;
        }
        i = i + 1;
    }
    proof {
        if spec_callback_name(name@) {
            if name@ == "on_load"@ { assert(known@[0]@ == name@); }
            if name@ == "on_unload"@ { assert(known@[1]@ == name@); }
            if name@ == "on_update"@ { assert(known@[2]@ == name@); }
            if name@ == "on_fixed_update"@ { assert(known@[3]@ == name@); }
            if name@ == "on_event"@ { assert(known@[4]@ == name@); }
            if name@ == "on_settings"@ { assert(known@[5]@ == name@); }
        }
        if found {
            let j = choose|j: int| 0 <= j < 6 && #[trigger] known@[j]@ == name@;
            assert(0 <= j < 6);
        }
    }
    if found && is_function {
        Ok(())
    } else {
        Err(String::from_str("Unknown callback or non-function: ").concat(name))
    }
}

} // verus!
