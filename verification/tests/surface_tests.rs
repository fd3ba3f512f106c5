//! Tests for skin extraction, patch segmentation, and closure validation.

use contact_detector::error::ContactDetectorError;
use contact_detector::surface::{
    extract_boundary_faces, extract_surface, subdivide_into_surface_patches, validate_surface_closure,
    BoundaryFace,
};
use contact_detector::types::{FaceNormal, HexElement, Mesh, QuadFace, SurfaceMesh, NORMAL_SCALE};

/// Outward unit normal of a quad face: normalized cross product of its
/// diagonals.
fn face_normal_f64(face: &QuadFace, nodes: &[[f64; 3]]) -> [f64; 3] {
    let p = |i: usize| nodes[face.node_ids[i]];
    let (a, b, c, d) = (p(0), p(1), p(2), p(3));
    let d1 = [c[0] - a[0], c[1] - a[1], c[2] - a[2]];
    let d2 = [d[0] - b[0], d[1] - b[1], d[2] - b[2]];
    let n = [
        d1[1] * d2[2] - d1[2] * d2[1],
        d1[2] * d2[0] - d1[0] * d2[2],
        d1[0] * d2[1] - d1[1] * d2[0],
    ];
    let len = (n[0] * n[0] + n[1] * n[1] + n[2] * n[2]).sqrt();
    [n[0] / len, n[1] / len, n[2] / len]
}

/// Area of a quad face: half the length of the diagonal cross product.
fn face_area_f64(face: &QuadFace, nodes: &[[f64; 3]]) -> f64 {
    let p = |i: usize| nodes[face.node_ids[i]];
    let (a, b, c, d) = (p(0), p(1), p(2), p(3));
    let d1 = [c[0] - a[0], c[1] - a[1], c[2] - a[2]];
    let d2 = [d[0] - b[0], d[1] - b[1], d[2] - b[2]];
    let n = [
        d1[1] * d2[2] - d1[2] * d2[1],
        d1[2] * d2[0] - d1[0] * d2[2],
        d1[0] * d2[1] - d1[1] * d2[0],
    ];
    (n[0] * n[0] + n[1] * n[1] + n[2] * n[2]).sqrt() / 2.0
}

fn quantize(n: [f64; 3]) -> FaceNormal {
    let s = NORMAL_SCALE as f64;
    FaceNormal::new((n[0] * s) as i64, (n[1] * s) as i64, (n[2] * s) as i64)
}

fn boundary_normals(boundary: &[BoundaryFace], nodes: &[[f64; 3]]) -> Vec<FaceNormal> {
    boundary
        .iter()
        .map(|b| quantize(face_normal_f64(&b.face, nodes)))
        .collect()
}

fn cube_nodes(z0: f64) -> Vec<[f64; 3]> {
    vec![
        [0.0, 0.0, z0],
        [1.0, 0.0, z0],
        [1.0, 1.0, z0],
        [0.0, 1.0, z0],
        [0.0, 0.0, z0 + 1.0],
        [1.0, 0.0, z0 + 1.0],
        [1.0, 1.0, z0 + 1.0],
        [0.0, 1.0, z0 + 1.0],
    ]
}

fn single_hex_mesh() -> (Mesh, Vec<[f64; 3]>) {
    let nodes = cube_nodes(0.0);
    let mesh = Mesh {
        node_count: nodes.len(),
        elements: vec![HexElement::new([0, 1, 2, 3, 4, 5, 6, 7])],
        element_blocks: vec![("Block1".to_string(), vec![0])],
        node_sets: vec![],
        side_sets: vec![],
    };
    (mesh, nodes)
}

#[test]
fn test_boundary_faces() {
    let (mesh, _) = single_hex_mesh();
    let boundary = extract_boundary_faces(&mesh.elements).unwrap();

    // All 6 faces should be boundary faces for a single hex
    assert_eq!(boundary.len(), 6);
    for b in &boundary {
        assert_eq!(b.element, 0);
    }
}

#[test]
fn test_two_hex_shared_face() {
    let mut nodes = cube_nodes(0.0);
    nodes.extend_from_slice(&[
        [0.0, 0.0, 2.0],
        [1.0, 0.0, 2.0],
        [1.0, 1.0, 2.0],
        [0.0, 1.0, 2.0],
    ]);
    let mesh = Mesh {
        node_count: nodes.len(),
        elements: vec![
            HexElement::new([0, 1, 2, 3, 4, 5, 6, 7]),
            HexElement::new([4, 5, 6, 7, 8, 9, 10, 11]),
        ],
        element_blocks: vec![("Block1".to_string(), vec![0, 1])],
        node_sets: vec![],
        side_sets: vec![],
    };

    let boundary = extract_boundary_faces(&mesh.elements).unwrap();

    // Two hexes share 1 face, so total boundary should be:
    // 12 total faces - 2 shared = 10 boundary faces
    assert_eq!(boundary.len(), 10);

    // coplanar neighboring side faces of the two stacked cubes merge, so
    // the block splits into bottom, top, and four two-face side patches
    let normals = boundary_normals(&boundary, &nodes);
    let surfaces = extract_surface(&mesh, &normals).unwrap();
    let total: usize = surfaces.iter().map(|s| s.num_faces()).sum();
    assert_eq!(total, 10);
    assert_eq!(surfaces.len(), 6);
}

#[test]
fn test_single_hex_surface_extraction() {
    let (mesh, nodes) = single_hex_mesh();
    let boundary = extract_boundary_faces(&mesh.elements).unwrap();
    let normals = boundary_normals(&boundary, &nodes);
    let surfaces = extract_surface(&mesh, &normals).unwrap();

    // each face of the hex becomes a separate patch, since the faces are
    // perpendicular to each other
    assert_eq!(surfaces.len(), 6);

    for surface in &surfaces {
        assert_eq!(surface.faces.len(), 1);
        assert!(surface.part_name.starts_with("Block1:patch_"));
    }

    let total_faces: usize = surfaces.iter().map(|s| s.faces.len()).sum();
    assert_eq!(total_faces, 6);
}

#[test]
fn test_single_hex_patch_names_and_geometry() {
    let (mesh, nodes) = single_hex_mesh();
    let boundary = extract_boundary_faces(&mesh.elements).unwrap();
    let normals = boundary_normals(&boundary, &nodes);
    let surfaces = extract_surface(&mesh, &normals).unwrap();

    for (k, surface) in surfaces.iter().enumerate() {
        assert_eq!(surface.part_name, format!("Block1:patch_{}", k));
        // unit area and axis-aligned unit normal for every cube face
        let area = face_area_f64(&surface.faces[0], &nodes);
        assert!((area - 1.0).abs() < 1e-12);
        let n = face_normal_f64(&surface.faces[0], &nodes);
        let mag = (n[0] * n[0] + n[1] * n[1] + n[2] * n[2]).sqrt();
        assert!((mag - 1.0).abs() < 1e-10);
        let on_axis = n
            .iter()
            .filter(|c| (c.abs() - 1.0).abs() < 1e-10)
            .count();
        assert_eq!(on_axis, 1);
    }
}

#[test]
fn test_full_pipeline_surface_extraction() {
    // two unit cubes in separate blocks, a 0.001 gap apart along x
    let mut nodes = cube_nodes(0.0);
    nodes.extend_from_slice(&[
        [1.001, 0.0, 0.0],
        [1.001, 1.0, 0.0],
        [1.001, 0.0, 1.0],
        [1.001, 1.0, 1.0],
        [2.0, 0.0, 0.0],
        [2.0, 1.0, 0.0],
        [2.0, 0.0, 1.0],
        [2.0, 1.0, 1.0],
    ]);
    let mesh = Mesh {
        node_count: nodes.len(),
        elements: vec![
            HexElement::new([0, 1, 2, 3, 4, 5, 6, 7]),
            HexElement::new([8, 12, 13, 9, 10, 14, 15, 11]),
        ],
        element_blocks: vec![
            ("Block1".to_string(), vec![0]),
            ("Block2".to_string(), vec![1]),
        ],
        node_sets: vec![],
        side_sets: vec![],
    };

    let boundary = extract_boundary_faces(&mesh.elements).unwrap();
    let normals = boundary_normals(&boundary, &nodes);
    let surfaces = extract_surface(&mesh, &normals).expect("Surface extraction should succeed");

    assert_eq!(surfaces.len(), 12);

    let block1_surfaces: Vec<_> = surfaces
        .iter()
        .filter(|s| s.part_name.starts_with("Block1:"))
        .collect();
    let block2_surfaces: Vec<_> = surfaces
        .iter()
        .filter(|s| s.part_name.starts_with("Block2:"))
        .collect();

    assert_eq!(block1_surfaces.len(), 6);
    assert_eq!(block2_surfaces.len(), 6);

    for surface in &block1_surfaces {
        assert_eq!(surface.num_faces(), 1);
    }

    // the per-face geometry of every extracted face is sound
    for surface in &surfaces {
        for face in &surface.faces {
            let area = face_area_f64(face, &nodes);
            assert!(area > 0.0, "Face area should be positive");
            assert!(area.is_finite(), "Face area should be finite");
            let n = face_normal_f64(face, &nodes);
            let norm = (n[0] * n[0] + n[1] * n[1] + n[2] * n[2]).sqrt();
            assert!((norm - 1.0).abs() < 1e-10, "Normal should be unit length");
        }
    }
}

#[test]
fn test_face_on_three_elements_rejected() {
    // three identical elements: every face is carried three times
    let elements = vec![
        HexElement::new([0, 1, 2, 3, 4, 5, 6, 7]),
        HexElement::new([0, 1, 2, 3, 4, 5, 6, 7]),
        HexElement::new([0, 1, 2, 3, 4, 5, 6, 7]),
    ];
    let r = extract_boundary_faces(&elements);
    match r {
        Err(e) => {
            assert!(matches!(e, ContactDetectorError::InvalidMeshTopology(_)));
            assert!(e.message().starts_with("Invalid mesh topology: "));
        },
        Ok(_) => panic!("a face on three elements must be rejected"),
    }
}

#[test]
fn test_element_outside_blocks_rejected() {
    let (mut mesh, nodes) = single_hex_mesh();
    mesh.element_blocks = vec![("Block1".to_string(), vec![])];
    let boundary = extract_boundary_faces(&mesh.elements).unwrap();
    let normals = boundary_normals(&boundary, &nodes);
    let r = extract_surface(&mesh, &normals);
    assert!(matches!(r, Err(ContactDetectorError::InvalidMeshTopology(_))));
}

#[test]
fn test_node_index_out_of_range_rejected() {
    let (mut mesh, nodes) = single_hex_mesh();
    mesh.node_count = 4;
    let normals: Vec<FaceNormal> = boundary_normals(
        &extract_boundary_faces(&mesh.elements).unwrap(),
        &nodes,
    );
    let r = extract_surface(&mesh, &normals);
    assert!(matches!(r, Err(ContactDetectorError::InvalidMeshTopology(_))));
}

#[test]
fn test_subdivide_merges_coplanar_faces() {
    // two unit squares side by side in the z=0 plane share an edge and a
    // normal, so they form one patch
    let faces = vec![QuadFace::new([0, 1, 2, 3]), QuadFace::new([1, 4, 5, 2])];
    let up = FaceNormal::new(0, 0, NORMAL_SCALE);
    let normals = vec![up, up];
    let patches = subdivide_into_surface_patches(&faces, &normals);
    assert_eq!(patches.len(), 1);
    assert_eq!(patches[0], vec![0, 1]);
}

#[test]
fn test_subdivide_splits_disconnected_faces() {
    // same normals but no shared edge: two patches
    let faces = vec![QuadFace::new([0, 1, 2, 3]), QuadFace::new([10, 11, 12, 13])];
    let up = FaceNormal::new(0, 0, NORMAL_SCALE);
    let normals = vec![up, up];
    let patches = subdivide_into_surface_patches(&faces, &normals);
    assert_eq!(patches.len(), 2);
    assert_eq!(patches[0], vec![0]);
    assert_eq!(patches[1], vec![1]);
}

#[test]
fn test_validate_surface_closure() {
    // the full skin of a cube is closed
    let (mesh, _) = single_hex_mesh();
    let boundary = extract_boundary_faces(&mesh.elements).unwrap();
    let mut closed_surface = SurfaceMesh::new("closed".to_string());
    closed_surface.faces = boundary.iter().map(|b| b.face).collect();
    assert_eq!(validate_surface_closure(&closed_surface).unwrap(), true);

    // a single face is not closed
    let mut open_surface = SurfaceMesh::new("open".to_string());
    open_surface.faces = vec![QuadFace::new([0, 1, 2, 3])];
    assert_eq!(validate_surface_closure(&open_surface).unwrap(), false);
}
