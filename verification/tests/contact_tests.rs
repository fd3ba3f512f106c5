//! Tests for contact pair detection and match selection.

use contact_detector::contact::{detect_contact_pairs, find_best_match, CandidateMatch};

/// Angle between two vectors, in degrees, as the matcher's caller computes
/// it.
fn angle_deg(u: [f64; 3], v: [f64; 3]) -> f64 {
    let dot = u[0] * v[0] + u[1] * v[1] + u[2] * v[2];
    let nu = (u[0] * u[0] + u[1] * u[1] + u[2] * u[2]).sqrt();
    let nv = (v[0] * v[0] + v[1] * v[1] + v[2] * v[2]).sqrt();
    if nu * nv < 1e-12 {
        return 0.0;
    }
    (dot / (nu * nv)).clamp(-1.0, 1.0).acos().to_degrees()
}

/// An order-preserving score for an absolute distance.
fn score_of(distance_abs: f64) -> u64 {
    (distance_abs * 1e12) as u64
}

#[test]
fn test_detect_contact_pairs_parallel_surfaces() {
    // Surface A: flat unit square at z=0, normal +z, centroid (0.5,0.5,0)
    // Surface B: flat unit square at z=0.001, normal -z
    let centroid_a = [0.5, 0.5, 0.0];
    let normal_a = [0.0, 0.0, 1.0];
    let centroid_b = [0.5, 0.5, 0.001];
    let normal_b = [0.0, 0.0, -1.0];

    // criteria: max_gap 0.005, max_penetration 0.001, max_angle 180
    let d = (centroid_b[0] - centroid_a[0]) * normal_a[0]
        + (centroid_b[1] - centroid_a[1]) * normal_a[1]
        + (centroid_b[2] - centroid_a[2]) * normal_a[2];
    let angle = angle_deg(normal_a, normal_b);
    let candidate = CandidateMatch {
        face_b: 0,
        score: score_of(d.abs()),
        in_range: -0.001 <= d && d <= 0.005,
        angle_ok: angle <= 180.0,
    };
    let candidates = vec![vec![candidate]];

    let results = detect_contact_pairs("SurfaceA", "SurfaceB", &candidates, 1);

    assert_eq!(results.num_pairs(), 1);
    assert_eq!(results.unpaired_a.len(), 0);
    assert_eq!(results.unpaired_b.len(), 0);

    let pair = &results.pairs[0];
    assert_eq!(pair.surface_a_face_id, 0);
    assert_eq!(pair.surface_b_face_id, 0);
    assert!((d - 0.001).abs() < 1e-6);
    assert!((angle - 180.0).abs() < 1.0);
}

#[test]
fn test_find_best_match_picks_smallest_score() {
    let cands = vec![
        CandidateMatch { face_b: 4, score: 30, in_range: true, angle_ok: true },
        CandidateMatch { face_b: 5, score: 10, in_range: true, angle_ok: true },
        CandidateMatch { face_b: 6, score: 20, in_range: true, angle_ok: true },
    ];
    assert_eq!(find_best_match(&cands), Some(1));
}

#[test]
fn test_find_best_match_tie_breaks_first_seen() {
    let cands = vec![
        CandidateMatch { face_b: 4, score: 10, in_range: true, angle_ok: true },
        CandidateMatch { face_b: 5, score: 10, in_range: true, angle_ok: true },
    ];
    assert_eq!(find_best_match(&cands), Some(0));
}

#[test]
fn test_find_best_match_rejects_out_of_tolerance() {
    let cands = vec![
        CandidateMatch { face_b: 4, score: 1, in_range: false, angle_ok: true },
        CandidateMatch { face_b: 5, score: 2, in_range: true, angle_ok: false },
        CandidateMatch { face_b: 6, score: 30, in_range: true, angle_ok: true },
    ];
    // the closer candidates fail a tolerance check each
    assert_eq!(find_best_match(&cands), Some(2));
    let empty: Vec<CandidateMatch> = vec![];
    assert_eq!(find_best_match(&empty), None);
}

#[test]
fn test_detect_contact_pairs_partition() {
    // A-faces: 0 pairs with B-face 2, 1 has no acceptable candidate,
    // 2 pairs with B-face 2 as well (many-to-one is allowed)
    let candidates = vec![
        vec![
            CandidateMatch { face_b: 0, score: 9, in_range: false, angle_ok: true },
            CandidateMatch { face_b: 2, score: 5, in_range: true, angle_ok: true },
        ],
        vec![CandidateMatch { face_b: 1, score: 1, in_range: true, angle_ok: false }],
        vec![CandidateMatch { face_b: 2, score: 7, in_range: true, angle_ok: true }],
    ];
    let results = detect_contact_pairs("A", "B", &candidates, 4);

    assert_eq!(results.surface_a_name, "A");
    assert_eq!(results.surface_b_name, "B");
    assert_eq!(results.num_pairs(), 2);
    assert_eq!(results.pairs[0].surface_a_face_id, 0);
    assert_eq!(results.pairs[0].surface_b_face_id, 2);
    assert_eq!(results.pairs[1].surface_a_face_id, 2);
    assert_eq!(results.pairs[1].surface_b_face_id, 2);
    assert_eq!(results.unpaired_a, vec![1]);
    // B-faces 0, 1, 3 were never selected
    assert_eq!(results.unpaired_b, vec![0, 1, 3]);
}

#[test]
fn test_detect_contact_pairs_empty() {
    let candidates: Vec<Vec<CandidateMatch>> = vec![];
    let results = detect_contact_pairs("A", "B", &candidates, 2);
    assert_eq!(results.num_pairs(), 0);
    assert_eq!(results.unpaired_a.len(), 0);
    assert_eq!(results.unpaired_b, vec![0, 1]);
}
