//! Settings that the rest of the library reads.

use vstd::prelude::*;

verus! {

/// Which output the renderer produces.
#[derive(PartialEq, Eq, Structural, Debug, Clone, Copy)]
pub enum RenderMode {
    Gif,
    Video,
}

/// How the reading speed moves from a block's starting to its ending wpm.
#[derive(PartialEq, Eq, Structural, Debug, Clone, Copy)]
pub enum Easing {
    Linear,
    Instant,
}

} // verus!
