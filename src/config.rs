use vstd::prelude::*;

verus! {

/// The project configuration: what to build and how.
pub struct Config {
    pub general: General,
    pub build: Build,
}

/// The `[general]` table: the target and the entry file, relative to the
/// project root.
pub struct General {
    pub target: String,
    pub main: String,
}

/// The `[build]` table: the object directory, the compiler and its flags.
pub struct Build {
    pub build_dir: String,
    pub cc: String,
    pub cflags: String,
}

} // verus!
