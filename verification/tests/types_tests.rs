//! Tests for the core mesh data structures.

use contact_detector::types::{FaceNormal, HexElement, Mesh, QuadFace, NORMAL_SCALE};

#[test]
fn test_hex_faces() {
    let hex = HexElement::new([0, 1, 2, 3, 4, 5, 6, 7]);
    let faces = hex.faces();

    assert_eq!(faces.len(), 6);
    assert_eq!(faces[0].node_ids, [0, 3, 2, 1]); // bottom
    assert_eq!(faces[1].node_ids, [4, 5, 6, 7]); // top
}

#[test]
fn test_quad_canonical() {
    let face1 = QuadFace::new([1, 2, 3, 4]);
    let face2 = QuadFace::new([2, 3, 4, 1]); // rotated
    let face3 = QuadFace::new([4, 3, 2, 1]); // reversed

    assert_eq!(face1.canonical(), face2.canonical());
    assert_eq!(face1.canonical(), face3.canonical());
}

#[test]
fn test_quad_canonical_idempotent() {
    for face in [
        QuadFace::new([9, 2, 7, 4]),
        QuadFace::new([3, 1, 4, 1]),
        QuadFace::new([0, 0, 0, 0]),
        QuadFace::new([5, 6, 7, 8]),
    ] {
        let c = face.canonical();
        assert_eq!(c.canonical(), c);
    }
}

#[test]
fn test_quad_canonical_winding_invariant() {
    // all eight rotations and reflections of one face share a canonical form
    let base = [10, 25, 3, 17];
    let expect = QuadFace::new(base).canonical();
    for k in 0..4 {
        let rot = [
            base[k % 4],
            base[(k + 1) % 4],
            base[(k + 2) % 4],
            base[(k + 3) % 4],
        ];
        assert_eq!(QuadFace::new(rot).canonical(), expect);
        let rev = [rot[0], rot[3], rot[2], rot[1]];
        assert_eq!(QuadFace::new(rev).canonical(), expect);
    }
}

#[test]
fn test_mesh_creation() {
    let mut mesh = Mesh::new();
    assert_eq!(mesh.num_nodes(), 0);
    assert_eq!(mesh.num_elements(), 0);

    mesh.node_count = 1;
    assert_eq!(mesh.num_nodes(), 1);
}

#[test]
fn test_mesh_creation_and_queries() {
    let mut mesh = Mesh::new();
    mesh.node_count = 16;
    mesh.elements.push(HexElement::new([0, 1, 2, 3, 4, 5, 6, 7]));
    mesh.elements.push(HexElement::new([8, 12, 13, 9, 10, 14, 15, 11]));
    mesh.element_blocks.push(("Block1".to_string(), vec![0]));
    mesh.element_blocks.push(("Block2".to_string(), vec![1]));

    assert_eq!(mesh.num_nodes(), 16);
    assert_eq!(mesh.num_elements(), 2);
    assert_eq!(mesh.num_blocks(), 2);

    let block1_elements = mesh.get_block("Block1");
    assert!(block1_elements.is_some());
    if let Some(elements) = block1_elements {
        assert_eq!(elements.len(), 1);
        assert_eq!(elements[0].node_ids, [0, 1, 2, 3, 4, 5, 6, 7]);
    }

    let invalid_block = mesh.get_block("NonExistent");
    assert!(invalid_block.is_none());
}

#[test]
fn test_coplanarity_threshold() {
    let scale = NORMAL_SCALE as f64;
    let quantize = |x: f64, y: f64, z: f64| {
        FaceNormal::new((x * scale) as i64, (y * scale) as i64, (z * scale) as i64)
    };
    let up = quantize(0.0, 0.0, 1.0);
    // identical normals are coplanar
    assert!(up.is_coplanar_with(&up));
    // 5 degrees apart: within the 10 degree threshold
    let five = 5.0f64.to_radians();
    let tilted5 = quantize(five.sin(), 0.0, five.cos());
    assert!(up.is_coplanar_with(&tilted5));
    // 15 degrees apart: outside the threshold
    let fifteen = 15.0f64.to_radians();
    let tilted15 = quantize(fifteen.sin(), 0.0, fifteen.cos());
    assert!(!up.is_coplanar_with(&tilted15));
    // perpendicular faces of a hex never merge
    let side = quantize(1.0, 0.0, 0.0);
    assert!(!up.is_coplanar_with(&side));
}
