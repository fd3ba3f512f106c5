//! Contact detection for hexahedral finite-element meshes.
//!
//! The library reduces a volume mesh of eight-node brick elements to its
//! boundary, segments each block's boundary into locally planar patches, and
//! pairs the faces of two such patches under geometric tolerances.  All mesh
//! topology — face canonicalization, skin extraction, patch segmentation, and
//! match selection — is verified here; floating-point geometry (normals,
//! centroids, areas, distances) is computed by the caller and enters the
//! library as plain integer data.

pub mod contact;
pub mod error;
pub mod names;
pub mod sideset;
pub mod surface;
pub mod types;
