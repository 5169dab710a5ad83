//! Shader programs as the library names them.

use vstd::prelude::*;

verus! {

/// A compiled and linked shader program, known by the identifier the graphics
/// driver gave it.
pub struct Shader {
    /// The driver's identifier of the program.
    pub id: u32,
}

} // verus!
