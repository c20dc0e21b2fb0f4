//! The package runtime behind the game's Lua mods: package, manifest, settings and command
//! rules, and the registry that decides how packages are installed and run.
pub mod text;
pub mod ident;
pub mod paths;
pub mod floatbits;
pub mod command;
pub mod settings;
pub mod manifest;
pub mod package;
pub mod batch;
pub mod fonts;
pub mod manager;
pub mod objects;
pub mod observe;
pub mod laws;
pub mod purpose;
