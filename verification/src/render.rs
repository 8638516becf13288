//! The vocabulary shared with the rendering collaborator: which primitive a
//! draw call batches. The core itself issues no draw calls; it only exposes
//! read access to the index and the particles, and this tag type.

use vstd::prelude::*;

verus! {

/// One batch of primitives the renderer can draw. `EnumLength` is the
/// conventional trailing sentinel counting the real variants.
#[derive(PartialEq, Eq, Hash, Debug)]
pub enum RenderPrimitive {
    Tri,
    Circ,
    Line,
    Mesh,
    EnumLength,
}

} // verus!
