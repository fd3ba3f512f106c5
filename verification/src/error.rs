//! Error types for mesh reading, surface extraction, and contact detection.

use vstd::prelude::*;
use vstd::string::StringExecFns;

verus! {

/// An error raised by surface extraction, contact detection, or one of the
/// surrounding conversions.
#[derive(Debug, Clone)]
pub enum ContactDetectorError {
    /// A mesh file could not be read.
    ExodusReadError(String),
    /// The mesh data violates a structural constraint, such as an
    /// out-of-range node or element index, a face shared by more than two
    /// elements, or a block naming an element that does not exist.
    InvalidMeshTopology(String),
    /// A caller-supplied element block name does not appear in the mesh.
    ElementBlockNotFound(String),
    /// The mesh contains an element type other than the eight-node
    /// hexahedron.
    InvalidElementType { expected: String, found: String },
    /// A file operation failed.
    IoError(String),
    /// The underlying mesh-format library reported an error.
    NetcdfError(String),
    /// A visualization file could not be written.
    VtkError(String),
    /// A configuration value is malformed or out of range.
    ConfigError(String),
    /// A face is geometrically degenerate (zero normal or zero area).
    GeometryError(String),
}

impl ContactDetectorError {
    /// A readable description of the error: its kind, then the detail.
    pub fn message(&self) -> (r: String)
        ensures
            r@.len() > 0,
    {
        let (kind, detail): (&str, &String) = match self {
            ContactDetectorError::ExodusReadError(m) => ("Failed to read Exodus file: ", m),
            ContactDetectorError::InvalidMeshTopology(m) => ("Invalid mesh topology: ", m),
            ContactDetectorError::ElementBlockNotFound(m) => ("Element block not found: ", m),
            ContactDetectorError::InvalidElementType { expected, found: _ } => (
                "Invalid element type: expected ",
                expected,
            ),
            ContactDetectorError::IoError(m) => ("I/O error: ", m),
            ContactDetectorError::NetcdfError(m) => ("NetCDF error: ", m),
            ContactDetectorError::VtkError(m) => ("VTK error: ", m),
            ContactDetectorError::ConfigError(m) => ("Configuration error: ", m),
            ContactDetectorError::GeometryError(m) => ("Geometry error: ", m),
        };
        let mut r = kind.to_owned();
        r.append(detail.as_str());
        proof {
            reveal_strlit("Failed to read Exodus file: ");
            reveal_strlit("Invalid mesh topology: ");
            reveal_strlit("Element block not found: ");
            reveal_strlit("Invalid element type: expected ");
            reveal_strlit("I/O error: ");
            reveal_strlit("NetCDF error: ");
            reveal_strlit("VTK error: ");
            reveal_strlit("Configuration error: ");
            reveal_strlit("Geometry error: ");
        }
        r
    }
}

} // verus!
