//! Core mesh data structures: hexahedral elements, quad faces and their
//! canonical form, volume meshes, and extracted surface patches.

use vstd::prelude::*;

verus! {

/// Quadrilateral face of a hexahedral element: four node indices in
/// counter-clockwise order as seen from outside the element.
#[derive(Debug, Clone, Copy, PartialEq, Eq, Hash)]
pub struct QuadFace {
    /// Node indices in counter-clockwise order.
    pub node_ids: [usize; 4],
}

impl View for QuadFace {
    type V = Seq<usize>;

    open spec fn view(&self) -> Seq<usize> {
        self.node_ids@
    }
}

/// Left rotation of a four-element sequence by `k` places.
pub open spec fn rotl4(s: Seq<usize>, k: int) -> Seq<usize>
    recommends
        s.len() == 4,
        0 <= k < 4,
{
    seq![s[k], s[(k + 1) % 4], s[(k + 2) % 4], s[(k + 3) % 4]]
}

/// Index of the first occurrence of the minimum among the four entries.
pub open spec fn first_min_idx4(s: Seq<usize>) -> int
    recommends
        s.len() == 4,
{
    if s[0] <= s[1] && s[0] <= s[2] && s[0] <= s[3] {
        0
    } else if s[1] <= s[2] && s[1] <= s[3] {
        1
    } else if s[2] <= s[3] {
        2
    } else {
        3
    }
}

/// The cyclic order traversed in the opposite direction, anchored at the
/// same first entry.
pub open spec fn reversed_from_first(s: Seq<usize>) -> Seq<usize>
    recommends
        s.len() == 4,
{
    seq![s[0], s[3], s[2], s[1]]
}

/// Lexicographic comparison of the last three entries (the first entries of
/// both operands are equal wherever this is used).
pub open spec fn lex3_less(a: Seq<usize>, b: Seq<usize>) -> bool
    recommends
        a.len() == 4,
        b.len() == 4,
{
    a[1] < b[1] || (a[1] == b[1] && (a[2] < b[2] || (a[2] == b[2] && a[3] < b[3])))
}

/// Canonical form of a quad face: rotate the minimum node index to the
/// front, then pick the lexicographically smaller of that rotation and its
/// reversal anchored at the same first entry.  Faces with the same node set
/// that differ only by rotation or reflection share one canonical form.
#[verifier::opaque]
pub open spec fn canon_seq(s: Seq<usize>) -> Seq<usize>
    recommends
        s.len() == 4,
{
    let r = rotl4(s, first_min_idx4(s));
    let v = reversed_from_first(r);
    if lex3_less(v, r) {
        v
    } else {
        r
    }
}

impl QuadFace {
    /// Create a new quad face.
    pub fn new(node_ids: [usize; 4]) -> (r: Self)
        ensures
            r.node_ids == node_ids,
    {
        Self { node_ids }
    }

    /// Canonical form for use as a face-identity key; see [`canon_seq`].
    pub fn canonical(&self) -> (r: Self)
        ensures
            r@ == canon_seq(self@),
    {
        let n = self.node_ids;
        let m: usize = if n[0] <= n[1] && n[0] <= n[2] && n[0] <= n[3] {
            0
        } else if n[1] <= n[2] && n[1] <= n[3] {
            1
        } else if n[2] <= n[3] {
            2
        } else {
            3
        };
        let rot: [usize; 4] = [n[m], n[(m + 1) % 4], n[(m + 2) % 4], n[(m + 3) % 4]];
        proof {
            reveal(canon_seq);
            assert(rot@ =~= rotl4(self@, m as int));
        }
        let rev: [usize; 4] = [rot[0], rot[3], rot[2], rot[1]];
        proof {
            assert(rev@ =~= reversed_from_first(rot@));
        }
        let pick_rev = rev[1] < rot[1] || (rev[1] == rot[1] && (rev[2] < rot[2] || (rev[2]
            == rot[2] && rev[3] < rot[3])));
        if pick_rev {
            QuadFace { node_ids: rev }
        } else {
            QuadFace { node_ids: rot }
        }
    }
}

/// Four pairwise distinct entries; quad faces of a well-formed mesh never
/// repeat a node index.
pub open spec fn distinct4(s: Seq<usize>) -> bool
    recommends
        s.len() == 4,
{
    s[0] != s[1] && s[0] != s[2] && s[0] != s[3] && s[1] != s[2] && s[1] != s[3] && s[2] != s[3]
}

/// The canonical form is idempotent: taking the canonical form of a
/// canonical form changes nothing.
pub proof fn lemma_canonical_idempotent(s: Seq<usize>)
    requires
        s.len() == 4,
    ensures
        canon_seq(canon_seq(s)) == canon_seq(s),
{
    reveal(canon_seq);
    let c = canon_seq(s);
    assert(c.len() == 4);
    assert(first_min_idx4(c) == 0);
    assert(rotl4(c, 0) =~= c);
}

/// The canonical form does not depend on which node the face's cyclic
/// winding starts at: every rotation of a face yields the same canonical
/// form.
pub proof fn lemma_canonical_rotation_invariant(s: Seq<usize>, k: int)
    requires
        s.len() == 4,
        0 <= k < 4,
        distinct4(s),
    ensures
        canon_seq(rotl4(s, k)) == canon_seq(s),
{
    reveal(canon_seq);
    let t = rotl4(s, k);
    let m = first_min_idx4(s);
    let mt = first_min_idx4(t);
    assert(rotl4(t, mt) =~= rotl4(s, m));
    assert(reversed_from_first(rotl4(t, mt)) =~= reversed_from_first(rotl4(s, m)));
}

/// The canonical form does not depend on the direction of the face's cyclic
/// winding: a face and its reflection yield the same canonical form.
pub proof fn lemma_canonical_reflection_invariant(s: Seq<usize>)
    requires
        s.len() == 4,
        distinct4(s),
    ensures
        canon_seq(reversed_from_first(s)) == canon_seq(s),
{
    reveal(canon_seq);
    let t = reversed_from_first(s);
    let m = first_min_idx4(s);
    let mt = first_min_idx4(t);
    assert(rotl4(t, mt) =~= reversed_from_first(rotl4(s, m)));
    assert(reversed_from_first(rotl4(t, mt)) =~= rotl4(s, m));
}

/// Hexahedral element: eight node indices in the canonical ordering, where
/// indices 0..3 form one face in a fixed winding and index k+4 is the
/// neighbor of index k on the opposing face.
#[derive(Debug, Clone, Copy, PartialEq, Eq, Hash)]
pub struct HexElement {
    /// Node indices in canonical hexahedral ordering.
    pub node_ids: [usize; 8],
}

/// The `k`-th quad face of a hex element, as a sequence of node indices in
/// counter-clockwise order when viewed from outside.  The order of faces is
/// bottom, top, front, right, back, left.
pub open spec fn hex_face(h: HexElement, k: int) -> Seq<usize>
    recommends
        0 <= k < 6,
{
    let n = h.node_ids@;
    if k == 0 {
        seq![n[0], n[3], n[2], n[1]]
    } else if k == 1 {
        seq![n[4], n[5], n[6], n[7]]
    } else if k == 2 {
        seq![n[0], n[1], n[5], n[4]]
    } else if k == 3 {
        seq![n[1], n[2], n[6], n[5]]
    } else if k == 4 {
        seq![n[2], n[3], n[7], n[6]]
    } else {
        seq![n[3], n[0], n[4], n[7]]
    }
}

impl HexElement {
    /// Create a new hex element.
    pub fn new(node_ids: [usize; 8]) -> (r: Self)
        ensures
            r.node_ids == node_ids,
    {
        Self { node_ids }
    }

    /// The six quad faces of this element, in the order bottom, top, front,
    /// right, back, left, each wound counter-clockwise as seen from outside.
    pub fn faces(&self) -> (r: [QuadFace; 6])
        ensures
            forall|k: int| 0 <= k < 6 ==> #[trigger] r@[k]@ == hex_face(*self, k),
    {
        let n = self.node_ids;
        let r = [
            QuadFace::new([n[0], n[3], n[2], n[1]]),
            QuadFace::new([n[4], n[5], n[6], n[7]]),
            QuadFace::new([n[0], n[1], n[5], n[4]]),
            QuadFace::new([n[1], n[2], n[6], n[5]]),
            QuadFace::new([n[2], n[3], n[7], n[6]]),
            QuadFace::new([n[3], n[0], n[4], n[7]]),
        ];
        proof {
            assert forall|k: int| 0 <= k < 6 implies #[trigger] r@[k]@ == hex_face(*self, k) by {
                assert(r@[k]@ =~= hex_face(*self, k));
            }
        }
        r
    }
}

/// Scale of quantized unit normals: a caller converts each outward unit
/// normal to integer components by multiplying with this scale (2^20) and
/// rounding toward zero.
pub const NORMAL_SCALE: i64 = 1048576;

/// `cos(10°) · NORMAL_SCALE²`, rounded to the nearest integer
/// (cos 10° ≈ 0.9848077530122081).  Two quantized unit normals are within
/// the 10° coplanarity threshold exactly when their dot product reaches
/// this value.
pub const COPLANAR_DOT_MIN: i64 = 1082807575560;

/// Outward unit normal of a face, quantized to integer components scaled
/// by [`NORMAL_SCALE`].
#[derive(Debug, Clone, Copy, PartialEq, Eq, Structural)]
pub struct FaceNormal {
    /// x component times [`NORMAL_SCALE`].
    pub x: i64,
    /// y component times [`NORMAL_SCALE`].
    pub y: i64,
    /// z component times [`NORMAL_SCALE`].
    pub z: i64,
}

/// Each component of a quantized unit normal lies within the scale bound.
pub open spec fn normal_wf(n: FaceNormal) -> bool {
    &&& -NORMAL_SCALE <= n.x <= NORMAL_SCALE
    &&& -NORMAL_SCALE <= n.y <= NORMAL_SCALE
    &&& -NORMAL_SCALE <= n.z <= NORMAL_SCALE
}

/// Dot product of two quantized normals, in units of `NORMAL_SCALE²`.
pub open spec fn normal_dot(a: FaceNormal, b: FaceNormal) -> int {
    a.x * b.x + a.y * b.y + a.z * b.z
}

/// The coplanarity rule of patch segmentation: two faces belong to the same
/// locally planar patch only when the angle between their outward normals
/// is at most the 10° threshold, which for quantized unit normals is this
/// dot-product bound.
pub open spec fn coplanar(a: FaceNormal, b: FaceNormal) -> bool {
    normal_dot(a, b) >= COPLANAR_DOT_MIN
}

impl FaceNormal {
    /// Create a quantized normal from the scaled components.
    pub fn new(x: i64, y: i64, z: i64) -> (r: Self)
        ensures
            r == (FaceNormal { x, y, z }),
    {
        FaceNormal { x, y, z }
    }

    /// Whether this normal and `other` pass the coplanarity test.
    pub fn is_coplanar_with(&self, other: &FaceNormal) -> (r: bool)
        requires
            normal_wf(*self),
            normal_wf(*other),
        ensures
            r == coplanar(*self, *other),
    {
        proof {
            assert(self.x * other.x <= NORMAL_SCALE * NORMAL_SCALE && self.x * other.x
                >= -(NORMAL_SCALE * NORMAL_SCALE)) by (nonlinear_arith)
                requires
                    -NORMAL_SCALE <= self.x <= NORMAL_SCALE,
                    -NORMAL_SCALE <= other.x <= NORMAL_SCALE,
            ;
            assert(self.y * other.y <= NORMAL_SCALE * NORMAL_SCALE && self.y * other.y
                >= -(NORMAL_SCALE * NORMAL_SCALE)) by (nonlinear_arith)
                requires
                    -NORMAL_SCALE <= self.y <= NORMAL_SCALE,
                    -NORMAL_SCALE <= other.y <= NORMAL_SCALE,
            ;
            assert(self.z * other.z <= NORMAL_SCALE * NORMAL_SCALE && self.z * other.z
                >= -(NORMAL_SCALE * NORMAL_SCALE)) by (nonlinear_arith)
                requires
                    -NORMAL_SCALE <= self.z <= NORMAL_SCALE,
                    -NORMAL_SCALE <= other.z <= NORMAL_SCALE,
            ;
        }
        let dot = self.x * other.x + self.y * other.y + self.z * other.z;
        dot >= COPLANAR_DOT_MIN
    }
}

/// A hexahedral volume mesh: the node count, the element list, and the
/// partition of elements into named blocks, plus node sets and side sets
/// that pass through the pipeline unchanged.  Node coordinates live with
/// the caller; the library's topology only reads how many nodes exist.
#[derive(Debug, Clone)]
pub struct Mesh {
    /// Number of nodes; element node indices must lie below this count.
    pub node_count: usize,
    /// All hexahedral elements.
    pub elements: Vec<HexElement>,
    /// Named element blocks: block name and the element indices it owns.
    pub element_blocks: Vec<(String, Vec<usize>)>,
    /// Named node sets, passed through unchanged.
    pub node_sets: Vec<(String, Vec<usize>)>,
    /// Named side sets: element index and local face id, passed through
    /// unchanged.
    pub side_sets: Vec<(String, Vec<(usize, u8)>)>,
}

/// Every element index named by a block is in range.
pub open spec fn blocks_in_range(blocks: Seq<(String, Vec<usize>)>, num_elements: int) -> bool {
    forall|b: int, j: int|
        0 <= b < blocks.len() && 0 <= j < blocks[b].1@.len() ==> (#[trigger] blocks[b].1@[j])
            < num_elements
}

impl Mesh {
    /// Create a new empty mesh.
    pub fn new() -> (r: Self)
        ensures
            r.node_count == 0,
            r.elements@.len() == 0,
            r.element_blocks@.len() == 0,
            r.node_sets@.len() == 0,
            r.side_sets@.len() == 0,
    {
        Self {
            node_count: 0,
            elements: Vec::new(),
            element_blocks: Vec::new(),
            node_sets: Vec::new(),
            side_sets: Vec::new(),
        }
    }

    /// Total number of nodes.
    pub fn num_nodes(&self) -> (r: usize)
        ensures
            r == self.node_count,
    {
        self.node_count
    }

    /// Total number of elements.
    pub fn num_elements(&self) -> (r: usize)
        ensures
            r == self.elements@.len(),
    {
        self.elements.len()
    }

    /// Number of element blocks.
    pub fn num_blocks(&self) -> (r: usize)
        ensures
            r == self.element_blocks@.len(),
    {
        self.element_blocks.len()
    }

    /// The elements of the first block with the given name, or `None` when
    /// no block has that name.
    pub fn get_block(&self, name: &str) -> (r: Option<Vec<HexElement>>)
        requires
            blocks_in_range(self.element_blocks@, self.elements@.len() as int),
        ensures
            match r {
                Some(v) => exists|b: int|
                    0 <= b < self.element_blocks@.len() && (#[trigger] self.element_blocks@[b]).0@
                        == name@ && v@ == self.element_blocks@[b].1@.map_values(
                        |idx: usize| self.elements@[idx as int],
                    ),
                None => forall|b: int|
                    0 <= b < self.element_blocks@.len() ==> (#[trigger] self.element_blocks@[b]).0@
                        != name@,
            },
    {
        let mut b: usize = 0;
        while b < self.element_blocks.len()
            invariant
                blocks_in_range(self.element_blocks@, self.elements@.len() as int),
                0 <= b <= self.element_blocks@.len(),
                forall|c: int|
                    0 <= c < b ==> (#[trigger] self.element_blocks@[c]).0@ != name@,
            decreases self.element_blocks@.len() - b,
        {
            if crate::names::str_eq(name, self.element_blocks[b].0.as_str()) {
                let indices = &self.element_blocks[b].1;
                let mut v: Vec<HexElement> = Vec::new();
                let mut j: usize = 0;
                while j < indices.len()
                    invariant
                        blocks_in_range(self.element_blocks@, self.elements@.len() as int),
                        0 <= b < self.element_blocks@.len(),
                        indices == &self.element_blocks@[b as int].1,
                        0 <= j <= indices@.len(),
                        v@ =~= indices@.subrange(0, j as int).map_values(
                            |idx: usize| self.elements@[idx as int],
                        ),
                    decreases indices@.len() - j,
                {
                    let idx = indices[j];
                    v.push(self.elements[idx]);
                    proof {
                        assert(indices@.subrange(0, j + 1) =~= indices@.subrange(
                            0,
                            j as int,
                        ).push(indices@[j as int]));
                        assert(v@ =~= indices@.subrange(0, j + 1).map_values(
                            |idx: usize| self.elements@[idx as int],
                        ));
                    }
                    j += 1;
                }
                proof {
                    assert(indices@.subrange(0, indices@.len() as int) =~= indices@);
                }
                return Some(v);
            }
            b += 1;
        }
        None
    }
}

impl Default for Mesh {
    /// An empty mesh.
    fn default() -> (r: Self)
        ensures
            r.node_count == 0,
            r.elements@.len() == 0,
            r.element_blocks@.len() == 0,
            r.node_sets@.len() == 0,
            r.side_sets@.len() == 0,
    {
        Mesh::new()
    }
}

/// A surface patch extracted from a volume mesh: a maximal edge-connected
/// set of boundary faces of one block whose normals stay within the
/// coplanarity threshold of the patch's seed face.  Per-face geometry
/// (normals, centroids, areas) is floating point and lives with the caller,
/// keyed by position in `faces`.
#[derive(Debug, Clone)]
pub struct SurfaceMesh {
    /// `<block>:patch_<k>`, with `k` assigned in discovery order.
    pub part_name: String,
    /// The faces of the patch, each with its original outward winding.
    pub faces: Vec<QuadFace>,
}

impl SurfaceMesh {
    /// Create an empty surface patch with the given name.
    pub fn new(part_name: String) -> (r: Self)
        ensures
            r.part_name == part_name,
            r.faces@.len() == 0,
    {
        Self { part_name, faces: Vec::new() }
    }

    /// Number of faces in this patch.
    pub fn num_faces(&self) -> (r: usize)
        ensures
            r == self.faces@.len(),
    {
        self.faces.len()
    }
}

} // verus!
