use vstd::prelude::*;

verus! {

/// Why a mesh could not be loaded, normalized or encoded.
#[derive(Clone, Copy, Debug, PartialEq, Eq, Structural)]
pub enum MeshError {
    /// A `v` or `f` record with a missing or non-numeric field, or a face
    /// with fewer than three vertex references.
    MalformedRecord,
    /// A face refers to a vertex that the mesh does not have.
    IndexOutOfRange,
    /// The mesh has no vertices, or zero extent along some axis.
    DegenerateGeometry,
    /// The image dimensions cannot be written in the image container.
    InvalidDimensions,
}

} // verus!
