//! The game installation directory and the derived managed directory.
//!
//! Discovery of the directory (registry lookup, on-disk checks) and
//! launching the game are I/O concerns of the surrounding program; the
//! library holds the path conventions. Path strings use `/` as their
//! separator.

use vstd::prelude::*;

verus! {

/// A game installation: its root directory and the managed-assembly
/// directory inside it.
#[derive(Debug, Clone, Eq, PartialEq)]
pub struct GameDir {
    pub install: String,
    pub managed: String,
}

impl GameDir {
    /// Derives the managed directory from the installation root.
    pub fn new(game_dir: String) -> (r: Self)
        ensures
            r.install@ == game_dir@,
            r.managed@ == game_dir@ + "/oriDE_Data/Managed"@,
    {
        let managed = game_dir.clone().concat("/oriDE_Data/Managed");
        GameDir { install: game_dir, managed }
    }

    /// Whether an installation directory has been chosen at all.
    pub fn is_set(&self) -> (r: bool)
        ensures
            r == (self.install@.len() != 0),
    {
        !self.install.as_str().is_empty()
    }

    /// The path of the game's executable inside the installation
    /// directory; opening it is the caller's I/O.
    pub fn game_exe_path(&self) -> (r: String)
        ensures
            r@ == self.install@ + "/oriDE.exe"@,
    {
        let mut path = self.install.clone();
        path.append("/oriDE.exe");
        path
    }
}

impl Default for GameDir {
    /// The unset directory: both paths empty.
    fn default() -> (r: Self)
        ensures
            r.install@.len() == 0,
            r.managed@.len() == 0,
    {
        GameDir { install: String::new(), managed: String::new() }
    }
}

} // verus!
