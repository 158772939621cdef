//! Path-naming library for a template registry: turns filesystem paths into
//! stable registry keys by stripping extensions, normalizing `.`/`..`
//! segments syntactically, and computing paths relative to a base directory.

pub mod component;
pub mod path;
pub mod normalize;
pub mod relative;
pub mod key;
pub mod repl;
