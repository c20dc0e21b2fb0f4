# skate_mods

The package runtime behind the game's Lua mods, written in Verus: the rules a package, its
manifest, its settings and the commands its scripts stage must follow, and the registry that
decides when packages are installed, reinstalled, started, stopped and uninstalled.

## Layout

- `src/` — the verified library.
  - `ident`, `paths`, `package` — IDs, package-relative paths, discovery of package
    sources, content limits, entry-script checks (Lua compilation goes through `mlua`).
  - `manifest`, `settings` — `mod.json` and the settings schema; how saved values meet a
    (possibly new) schema.
  - `floatbits`, `command` — script commands and their bounds; floating-point values are
    carried as IEEE bit patterns.
  - `manager` — the registry: scan decisions (debounce, grace interval, duplicate IDs),
    lifecycle outcomes, staged commands, settings changes.
  - `batch`, `objects`, `observe` — how the game host applies a package's command batch,
    the objects packages own, single-owner slots, player transitions and teleport readiness.
  - `fonts` — the `fonts/` listing given to scripts.
  - `laws` — properties that span several operations.
- `app/` — ordinary Rust around the library: file-system access, preferences files, JSON
  forms of the library types, the Lua states (`mlua`), and the host that drives the registry.
- `tests/` — tests of the library on concrete values.
