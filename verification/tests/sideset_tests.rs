//! Tests for surface-to-sideset conversion.

use contact_detector::sideset::{add_contact_sidesets_to_mesh, surface_to_sideset};
use contact_detector::types::{HexElement, Mesh, QuadFace, SurfaceMesh};

fn single_hex_mesh() -> Mesh {
    Mesh {
        node_count: 8,
        elements: vec![HexElement::new([0, 1, 2, 3, 4, 5, 6, 7])],
        element_blocks: vec![("Block1".to_string(), vec![0])],
        node_sets: vec![],
        side_sets: vec![],
    }
}

#[test]
fn test_surface_to_sideset() {
    let mesh = single_hex_mesh();

    // Create a surface with the top face
    let mut surface = SurfaceMesh::new("Block1".to_string());
    surface.faces = vec![QuadFace::new([4, 5, 6, 7])];

    let result = surface_to_sideset(&surface, &mesh);
    assert!(result.is_ok());

    let sideset = result.unwrap();
    assert_eq!(sideset.len(), 1);
    assert_eq!(sideset[0].0, 0); // element 0
    assert_eq!(sideset[0].1, 1); // face 1 (top face)
}

#[test]
fn test_surface_to_sideset_multiple_faces() {
    // two hex elements stacked vertically
    let mesh = Mesh {
        node_count: 12,
        elements: vec![
            HexElement::new([0, 1, 2, 3, 4, 5, 6, 7]),
            HexElement::new([4, 5, 6, 7, 8, 9, 10, 11]),
        ],
        element_blocks: vec![("Block1".to_string(), vec![0, 1])],
        node_sets: vec![],
        side_sets: vec![],
    };

    let mut surface = SurfaceMesh::new("Block1".to_string());
    surface.faces = vec![
        QuadFace::new([0, 3, 2, 1]),   // bottom face of first hex
        QuadFace::new([8, 9, 10, 11]), // top face of second hex
    ];

    let result = surface_to_sideset(&surface, &mesh);
    assert!(result.is_ok());

    let sideset = result.unwrap();
    assert_eq!(sideset.len(), 2);

    assert!(sideset.iter().any(|(elem, face)| *elem == 0 && *face == 0));
    assert!(sideset.iter().any(|(elem, face)| *elem == 1 && *face == 1));
}

#[test]
fn test_surface_to_sideset_skips_unknown_faces() {
    let mesh = single_hex_mesh();
    let mut surface = SurfaceMesh::new("Block1".to_string());
    surface.faces = vec![
        QuadFace::new([100, 101, 102, 103]), // not a face of any element
        QuadFace::new([4, 5, 6, 7]),
    ];
    let sideset = surface_to_sideset(&surface, &mesh).unwrap();
    assert_eq!(sideset, vec![(0, 1)]);
}

#[test]
fn test_add_contact_sidesets_to_mesh() {
    let mut mesh = single_hex_mesh();

    let mut surface = SurfaceMesh::new("Block1:patch_1".to_string());
    surface.faces = vec![QuadFace::new([4, 5, 6, 7])];

    let original_mesh = mesh.clone();

    let contact_surfaces = vec![("auto_contact_Block1_patch_1".to_string(), surface)];
    let result = add_contact_sidesets_to_mesh(&mut mesh, &contact_surfaces, &original_mesh);
    assert!(result.is_ok());

    assert_eq!(mesh.side_sets.len(), 1);
    assert_eq!(mesh.side_sets[0].0, "auto_contact_Block1_patch_1");

    let sideset = &mesh.side_sets[0].1;
    assert_eq!(sideset.len(), 1);
    assert_eq!(sideset[0].0, 0); // element 0
}

#[test]
fn test_add_contact_sidesets_skips_empty() {
    let mut mesh = single_hex_mesh();
    let mut surface = SurfaceMesh::new("Block1:patch_2".to_string());
    surface.faces = vec![QuadFace::new([20, 21, 22, 23])];
    let original_mesh = mesh.clone();
    let contact_surfaces = vec![("auto_contact_empty".to_string(), surface)];
    add_contact_sidesets_to_mesh(&mut mesh, &contact_surfaces, &original_mesh).unwrap();
    assert_eq!(mesh.side_sets.len(), 0);
}
