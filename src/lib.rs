//! Wireframe rendering of triangle meshes into RGB pixel buffers.
//!
//! The pipeline is: parse the mesh text ([`mesh::Model::parse`]), normalize
//! the vertices into the unit cube, project them onto the pixel grid, draw
//! every triangle edge with the integer line rasterizer ([`raster::line`]),
//! then flip the rows and encode the buffer as an uncompressed TGA image.
pub mod color;
pub mod buffer;
pub mod raster;
pub mod error;
pub mod mesh;
pub mod obj;
pub mod tga;

