//! User-facing settings values that the library's logic consumes.
//!
//! Loading and saving settings (serialization, file I/O) belong to the
//! surrounding program; the library holds the plain values.

use vstd::prelude::*;

verus! {

/// How the game is launched: through the store client or by opening
/// its executable.
#[derive(Debug, Copy, Clone, Eq, PartialEq, Structural)]
pub enum LaunchType {
    Steam,
    File,
}

impl LaunchType {
    /// The display label of the launch type.
    pub fn display_string(&self) -> (r: String)
        ensures
            *self is Steam ==> r@ == "Steam"@,
            *self is File ==> r@ == "File"@,
    {
        match self {
            LaunchType::Steam => "Steam".to_owned(),
            LaunchType::File => "File".to_owned(),
        }
    }
}

} // verus!
