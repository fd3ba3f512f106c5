//! Surface extraction: reduce a hexahedral volume mesh to its boundary
//! faces, group them by element block, and segment each block's boundary
//! into locally planar patches.

use crate::error::ContactDetectorError;
use crate::names::dec_str;
use crate::types::{canon_seq, coplanar, hex_face, normal_wf, FaceNormal, HexElement, Mesh, QuadFace, SurfaceMesh};
use std::collections::HashMap;
use vstd::prelude::*;
use vstd::string::StrSliceExecFns;
use vstd::string::StringExecFns;

verus! {

broadcast use vstd::std_specs::hash::group_hash_axioms;

/// A boundary face of the volume mesh: the quad face with its original
/// winding, and the unique element it belongs to.
#[derive(Debug, Clone, Copy)]
pub struct BoundaryFace {
    /// The face, wound counter-clockwise as seen from outside its element.
    pub face: QuadFace,
    /// Index of the one element that contains this face.
    pub element: usize,
}

/// One face occurrence: the node sequence of the `i % 6`-th face of element
/// `i / 6`, paired with that element's index.
pub open spec fn occ_of(elems: Seq<HexElement>, i: int) -> (Seq<usize>, int) {
    (hex_face(elems[i / 6], i % 6), i / 6)
}

/// The flat list of all `6 * n` face occurrences of a mesh's elements, in
/// element order and, within an element, in its fixed face order.
#[verifier::opaque]
pub open spec fn face_occurrences(elems: Seq<HexElement>) -> Seq<(Seq<usize>, int)> {
    Seq::new((6 * elems.len()) as nat, |i: int| occ_of(elems, i))
}

/// How many occurrences in `occs` have the canonical form `key`.
pub open spec fn canon_count(occs: Seq<(Seq<usize>, int)>, key: Seq<usize>) -> nat {
    occs.filter(|o: (Seq<usize>, int)| canon_seq(o.0) == key).len()
}

/// The boundary of a mesh: the face occurrences whose canonical form
/// appears exactly once over all elements, in discovery order.
pub open spec fn boundary_model(elems: Seq<HexElement>) -> Seq<(Seq<usize>, int)> {
    let occs = face_occurrences(elems);
    occs.filter(|o: (Seq<usize>, int)| canon_count(occs, canon_seq(o.0)) == 1)
}

/// The abstract content of a boundary-face list.
pub open spec fn bf_view(bf: Seq<BoundaryFace>) -> Seq<(Seq<usize>, int)> {
    bf.map_values(|b: BoundaryFace| (b.face@, b.element as int))
}

/// All entries are below 2^32, so that a face key packs into one `u128`.
pub open spec fn ids_in_u32(s: Seq<usize>) -> bool {
    forall|i: int| 0 <= i < s.len() ==> s[i] < 0x1_0000_0000
}

/// Every node index of every element is below 2^32.  Face-identity keys are
/// packed four-by-32-bits into machine words; meshes this size bound admits
/// are far beyond what fits in memory.
pub open spec fn elements_in_u32(elems: Seq<HexElement>) -> bool {
    forall|i: int, j: int|
        0 <= i < elems.len() && 0 <= j < 8 ==> (#[trigger] elems[i].node_ids@[j]) < 0x1_0000_0000
}

/// A four-entry face key packed into one 128-bit word, base 2^32.
#[verifier::opaque]
pub open spec fn pack_key(s: Seq<usize>) -> u128
    recommends
        s.len() == 4,
        ids_in_u32(s),
{
    (s[0] * 0x1000000000000000000000000 + s[1] * 0x10000000000000000 + s[2] * 0x100000000
        + s[3]) as u128
}

/// Packing face keys is injective on keys whose entries fit in 32 bits.
pub proof fn lemma_pack_key_injective(s: Seq<usize>, t: Seq<usize>)
    requires
        s.len() == 4,
        t.len() == 4,
        ids_in_u32(s),
        ids_in_u32(t),
        pack_key(s) == pack_key(t),
    ensures
        s =~= t,
{
    reveal(pack_key);
    assert(s[0] < 0x1_0000_0000 && s[1] < 0x1_0000_0000 && s[2] < 0x1_0000_0000 && s[3]
        < 0x1_0000_0000);
    assert(t[0] < 0x1_0000_0000 && t[1] < 0x1_0000_0000 && t[2] < 0x1_0000_0000 && t[3]
        < 0x1_0000_0000);
    let ps = s[0] * 0x1000000000000000000000000 + s[1] * 0x10000000000000000 + s[2] * 0x100000000
        + s[3];
    let pt = t[0] * 0x1000000000000000000000000 + t[1] * 0x10000000000000000 + t[2] * 0x100000000
        + t[3];
    assert(0 <= ps < 0x100000000000000000000000000000000);
    assert(0 <= pt < 0x100000000000000000000000000000000);
    assert(ps == pt);
    assert(s[0] == t[0] && s[1] == t[1] && s[2] == t[2] && s[3] == t[3]);
}

/// The canonical form of a well-formed key is again four entries below 2^32.
pub proof fn lemma_canon_wf(s: Seq<usize>)
    requires
        s.len() == 4,
        ids_in_u32(s),
    ensures
        canon_seq(s).len() == 4,
        ids_in_u32(canon_seq(s)),
{
    reveal(crate::types::canon_seq);
    let c = canon_seq(s);
    assert forall|i: int| 0 <= i < c.len() implies c[i] < 0x1_0000_0000 by {
        assert(c[0] == s[0] || c[0] == s[1] || c[0] == s[2] || c[0] == s[3]);
        assert(c[1] == s[0] || c[1] == s[1] || c[1] == s[2] || c[1] == s[3]);
        assert(c[2] == s[0] || c[2] == s[1] || c[2] == s[2] || c[2] == s[3]);
        assert(c[3] == s[0] || c[3] == s[1] || c[3] == s[2] || c[3] == s[3]);
    }
}

/// Pack a face's canonical-form-ready node indices into one `u128`.
pub(crate) fn pack_face(f: &QuadFace) -> (k: u128)
    requires
        ids_in_u32(f@),
    ensures
        k == pack_key(f@),
{
    proof {
        reveal(pack_key);
    }
    (f.node_ids[0] as u128) * 0x1000000000000000000000000 + (f.node_ids[1] as u128)
        * 0x10000000000000000 + (f.node_ids[2] as u128) * 0x100000000 + (f.node_ids[3] as u128)
}

/// Extending an occurrence list by one entry raises the count of that
/// entry's canonical form by one and leaves every other count unchanged.
proof fn lemma_canon_count_push(
    prefix: Seq<(Seq<usize>, int)>,
    o: (Seq<usize>, int),
    key: Seq<usize>,
)
    ensures
        canon_count(prefix.push(o), key) == canon_count(prefix, key) + (if canon_seq(o.0) == key {
            1int
        } else {
            0int
        }),
{
    reveal(Seq::filter);
    assert(prefix.push(o).drop_last() =~= prefix);
    assert(prefix.push(o).last() == o);
}

/// A canonical form that no occurrence has, has count zero.
proof fn lemma_canon_count_zero(occs: Seq<(Seq<usize>, int)>, key: Seq<usize>)
    requires
        forall|i: int| 0 <= i < occs.len() ==> canon_seq((#[trigger] occs[i]).0) != key,
    ensures
        canon_count(occs, key) == 0,
    decreases occs.len(),
{
    reveal(Seq::filter);
    if occs.len() > 0 {
        assert(occs.drop_last() =~= occs.subrange(0, occs.len() - 1));
        assert(forall|i: int|
            0 <= i < occs.drop_last().len() ==> canon_seq((#[trigger] occs.drop_last()[i]).0)
                != key);
        lemma_canon_count_zero(occs.drop_last(), key);
    }
}

/// Counts never shrink as the occurrence list grows.
proof fn lemma_canon_count_monotone(
    occs: Seq<(Seq<usize>, int)>,
    t1: int,
    t2: int,
    key: Seq<usize>,
)
    requires
        0 <= t1 <= t2 <= occs.len(),
    ensures
        canon_count(occs.subrange(0, t1), key) <= canon_count(occs.subrange(0, t2), key),
    decreases t2 - t1,
{
    if t1 < t2 {
        lemma_canon_count_monotone(occs, t1, t2 - 1, key);
        assert(occs.subrange(0, t2) =~= occs.subrange(0, t2 - 1).push(occs[t2 - 1]));
        lemma_canon_count_push(occs.subrange(0, t2 - 1), occs[t2 - 1], key);
    }
}

/// Occurrence index `6 * e + f` decomposes back into element `e`, face `f`.
pub(crate) proof fn lemma_occ_index(e: int, f: int)
    requires
        0 <= e,
        0 <= f < 6,
    ensures
        (6 * e + f) / 6 == e,
        (6 * e + f) % 6 == f,
{
    vstd::arithmetic::div_mod::lemma_fundamental_div_mod_converse(6 * e + f, 6, e, f);
}

/// The number of face occurrences, and what each one is.
pub(crate) proof fn lemma_face_occurrences_index(elems: Seq<HexElement>, i: int)
    requires
        0 <= i < face_occurrences(elems).len(),
    ensures
        face_occurrences(elems).len() == 6 * elems.len(),
        face_occurrences(elems)[i] == (hex_face(elems[i / 6], i % 6), i / 6),
{
    reveal(face_occurrences);
}

/// The occurrence list has six entries per element.
pub(crate) proof fn lemma_face_occurrences_len(elems: Seq<HexElement>)
    ensures
        face_occurrences(elems).len() == 6 * elems.len(),
{
    reveal(face_occurrences);
}

/// Every face occurrence of a well-formed element list is a four-entry key
/// whose entries fit in 32 bits, owned by an in-range element.
pub(crate) proof fn lemma_occurrences_wf(elems: Seq<HexElement>)
    requires
        elements_in_u32(elems),
    ensures
        forall|i: int|
            0 <= i < face_occurrences(elems).len() ==> {
                let o = #[trigger] face_occurrences(elems)[i];
                &&& o.0.len() == 4
                &&& ids_in_u32(o.0)
                &&& 0 <= o.1 < elems.len()
                &&& o.0 == hex_face(elems[o.1], i % 6)
                &&& o.1 == i / 6
            },
{
    reveal(face_occurrences);
    let occs = face_occurrences(elems);
    assert forall|i: int| 0 <= i < occs.len() implies {
        let o = #[trigger] occs[i];
        &&& o.0.len() == 4
        &&& ids_in_u32(o.0)
        &&& 0 <= o.1 < elems.len()
        &&& o.0 == hex_face(elems[o.1], i % 6)
        &&& o.1 == i / 6
    } by {
        let e = i / 6;
        let f = i % 6;
        assert(0 <= e < elems.len());
        assert(0 <= f < 6);
        let face = hex_face(elems[e], f);
        assert forall|j: int| 0 <= j < face.len() implies face[j] < 0x1_0000_0000 by {
            assert(elems[e].node_ids@[0] < 0x1_0000_0000);
            assert(elems[e].node_ids@[1] < 0x1_0000_0000);
            assert(elems[e].node_ids@[2] < 0x1_0000_0000);
            assert(elems[e].node_ids@[3] < 0x1_0000_0000);
            assert(elems[e].node_ids@[4] < 0x1_0000_0000);
            assert(elems[e].node_ids@[5] < 0x1_0000_0000);
            assert(elems[e].node_ids@[6] < 0x1_0000_0000);
            assert(elems[e].node_ids@[7] < 0x1_0000_0000);
        }
    }
}

/// First pass of skin extraction: count, for every canonical face key, how
/// many element faces carry it.  Fails when a key occurs more than twice.
#[verifier::rlimit(100)]
fn count_canonical_faces(elems: &Vec<HexElement>) -> (r: Result<
    HashMap<u128, u64>,
    ContactDetectorError,
>)
    requires
        elements_in_u32(elems@),
    ensures
        match r {
            Ok(counts) => {
                let occs = face_occurrences(elems@);
                &&& forall|i: int|
                    0 <= i < occs.len() ==> counts@.contains_key(
                        pack_key(canon_seq((#[trigger] occs[i]).0)),
                    )
                &&& forall|i: int|
                    0 <= i < occs.len() ==> counts@[pack_key(canon_seq((#[trigger] occs[i]).0))]
                        as nat == canon_count(occs, canon_seq(occs[i].0))
                &&& forall|i: int|
                    0 <= i < occs.len() ==> canon_count(
                        face_occurrences(elems@),
                        canon_seq((#[trigger] occs[i]).0),
                    ) <= 2
            },
            Err(e) => {
                &&& e matches ContactDetectorError::InvalidMeshTopology(_)
                &&& exists|key: Seq<usize>|
                    canon_count(face_occurrences(elems@), key) >= 3
            },
        },
{
    let ghost occs = face_occurrences(elems@);
    let mut counts: HashMap<u128, u64> = HashMap::new();
    let mut e: usize = 0;
    while e < elems.len()
        invariant
            elements_in_u32(elems@),
            occs == face_occurrences(elems@),
            0 <= e <= elems.len(),
            forall|i: int|
                0 <= i < 6 * e ==> counts@.contains_key(
                    pack_key(canon_seq((#[trigger] occs[i]).0)),
                ),
            forall|i: int|
                0 <= i < 6 * e ==> counts@[pack_key(canon_seq((#[trigger] occs[i]).0))] as nat
                    == canon_count(occs.subrange(0, 6 * e as int), canon_seq(occs[i].0)),
            forall|k: u128|
                counts@.contains_key(k) ==> exists|i: int|
                    0 <= i < 6 * e && pack_key(canon_seq((#[trigger] occs[i]).0)) == k,
            forall|i: int|
                0 <= i < 6 * e ==> canon_count(
                    occs.subrange(0, 6 * e as int),
                    canon_seq((#[trigger] occs[i]).0),
                ) <= 2,
        decreases elems.len() - e,
    {
        let faces = elems[e].faces();
        let mut f: usize = 0;
        while f < 6
            invariant
                elements_in_u32(elems@),
                occs == face_occurrences(elems@),
                0 <= e < elems.len(),
                0 <= f <= 6,
                forall|k: int| 0 <= k < 6 ==> #[trigger] faces@[k]@ == hex_face(elems@[e as int], k),
                forall|i: int|
                    0 <= i < 6 * e + f ==> counts@.contains_key(
                        pack_key(canon_seq((#[trigger] occs[i]).0)),
                    ),
                forall|i: int|
                    0 <= i < 6 * e + f ==> counts@[pack_key(canon_seq((#[trigger] occs[i]).0))]
                        as nat == canon_count(
                        occs.subrange(0, 6 * e + f),
                        canon_seq(occs[i].0),
                    ),
                forall|k: u128|
                    counts@.contains_key(k) ==> exists|i: int|
                        0 <= i < 6 * e + f && pack_key(canon_seq((#[trigger] occs[i]).0)) == k,
                forall|i: int|
                    0 <= i < 6 * e + f ==> canon_count(
                        occs.subrange(0, 6 * e + f),
                        canon_seq((#[trigger] occs[i]).0),
                    ) <= 2,
            decreases 6 - f,
        {
            let ghost t = 6 * e + f;
            let ghost prefix = occs.subrange(0, t);
            proof {
                lemma_face_occurrences_len(elems@);
                lemma_occurrences_wf(elems@);
                lemma_occ_index(e as int, f as int);
                lemma_face_occurrences_index(elems@, t);
                assert(occs[t].0 == hex_face(elems@[e as int], f as int));
                assert(occs[t].0 == faces@[f as int]@);
            }
            let face = faces[f];
            let key = face.canonical();
            proof {
                assert(forall|j: int| 0 <= j < 4 ==> face@[j] < 0x1_0000_0000);
                lemma_canon_wf(face@);
                assert(key@ == canon_seq(occs[t].0));
            }
            let k = pack_face(&key);
            let c: u64 = match counts.get(&k) {
                Some(v) => {
                    proof {
                        let i = choose|i: int|
                            0 <= i < t && pack_key(canon_seq((#[trigger] occs[i]).0)) == k;
                        assert(ids_in_u32(occs[i].0));
                        lemma_canon_wf(occs[i].0);
                        lemma_pack_key_injective(canon_seq(occs[i].0), key@);
                        assert(*v as nat == canon_count(prefix, key@));
                    }
                    *v
                },
                None => {
                    proof {
                        assert forall|i: int| 0 <= i < prefix.len() implies canon_seq(
                            (#[trigger] prefix[i]).0,
                        ) != key@ by {
                            if canon_seq(prefix[i].0) == key@ {
                                assert(pack_key(canon_seq(occs[i].0)) == k);
                            }
                        }
                        lemma_canon_count_zero(prefix, key@);
                    }
                    0
                },
            };
            if c >= 2 {
                proof {
                    lemma_canon_count_push(prefix, occs[t], key@);
                    assert(occs.subrange(0, t + 1) =~= prefix.push(occs[t]));
                    lemma_canon_count_monotone(occs, t + 1, occs.len() as int, key@);
                    assert(occs.subrange(0, occs.len() as int) =~= occs);
                    assert(canon_count(occs, key@) >= 3);
                }
                return Err(
                    ContactDetectorError::InvalidMeshTopology(
                        "a face is shared by more than two elements".to_owned(),
                    ),
                );
            }
            counts.insert(k, c + 1);
            proof {
                let prefix1 = occs.subrange(0, t + 1);
                assert(prefix1 =~= prefix.push(occs[t]));
                assert forall|i: int|
                    0 <= i < t + 1 implies counts@[pack_key(
                    canon_seq((#[trigger] occs[i]).0),
                )] as nat == canon_count(prefix1, canon_seq(occs[i].0)) by {
                    let ki = canon_seq(occs[i].0);
                    lemma_canon_count_push(prefix, occs[t], ki);
                    assert(ids_in_u32(occs[i].0));
                    lemma_canon_wf(occs[i].0);
                    if pack_key(ki) == k {
                        lemma_pack_key_injective(ki, key@);
                        assert(ki == key@);
                        assert(canon_count(prefix1, ki) == c + 1);
                    } else {
                        assert(ki != key@);
                        assert(canon_count(prefix1, ki) == canon_count(prefix, ki));
                    }
                }
                assert forall|i: int|
                    0 <= i < t + 1 implies canon_count(
                    prefix1,
                    canon_seq((#[trigger] occs[i]).0),
                ) <= 2 by {
                    let ki = canon_seq(occs[i].0);
                    lemma_canon_count_push(prefix, occs[t], ki);
                }
            }
            f += 1;
        }
        e += 1;
    }
    proof {
        lemma_face_occurrences_len(elems@);
        assert(occs.subrange(0, 6 * e as int) =~= occs);
    }
    Ok(counts)
}

/// Filtering a sequence extended by one element.
proof fn lemma_filter_push<A>(s: Seq<A>, x: A, p: spec_fn(A) -> bool)
    ensures
        s.push(x).filter(p) == (if p(x) {
            s.filter(p).push(x)
        } else {
            s.filter(p)
        }),
{
    reveal(Seq::filter);
    assert(s.push(x).drop_last() =~= s);
    assert(s.push(x).last() == x);
}

/// Two predicates that agree on a sequence's elements filter it
/// identically.
proof fn lemma_filter_ext_on<A>(s: Seq<A>, p1: spec_fn(A) -> bool, p2: spec_fn(A) -> bool)
    requires
        forall|i: int| 0 <= i < s.len() ==> p1(#[trigger] s[i]) == p2(s[i]),
    ensures
        s.filter(p1) == s.filter(p2),
    decreases s.len(),
{
    reveal(Seq::filter);
    if s.len() > 0 {
        let d = s.drop_last();
        assert(forall|i: int| 0 <= i < d.len() ==> p1(#[trigger] d[i]) == p2(d[i]));
        lemma_filter_ext_on(d, p1, p2);
        assert(p1(s.last()) == p2(s.last()));
    }
}

/// Two pointwise-equal predicates filter a sequence identically.
proof fn lemma_filter_ext<A>(s: Seq<A>, p1: spec_fn(A) -> bool, p2: spec_fn(A) -> bool)
    requires
        forall|x: A| #[trigger] p1(x) == p2(x),
    ensures
        s.filter(p1) == s.filter(p2),
{
    assert(p1 =~= p2);
}

/// Extract the boundary faces of a hexahedral element list: the faces whose
/// canonical form belongs to exactly one element, each with its owning
/// element and its original winding, in discovery order.  Fails with
/// `InvalidMeshTopology` exactly when some face is shared by more than two
/// elements.
pub fn extract_boundary_faces(elems: &Vec<HexElement>) -> (r: Result<
    Vec<BoundaryFace>,
    ContactDetectorError,
>)
    requires
        elements_in_u32(elems@),
    ensures
        match r {
            Ok(bf) => {
                &&& bf_view(bf@) == boundary_model(elems@)
                &&& forall|i: int|
                    0 <= i < face_occurrences(elems@).len() ==> canon_count(
                        face_occurrences(elems@),
                        canon_seq((#[trigger] face_occurrences(elems@)[i]).0),
                    ) <= 2
            },
            Err(e) => {
                &&& e matches ContactDetectorError::InvalidMeshTopology(_)
                &&& exists|key: Seq<usize>| canon_count(face_occurrences(elems@), key) >= 3
            },
        },
{
    let ghost occs = face_occurrences(elems@);
    let ghost pred = (|o: (Seq<usize>, int)| canon_count(occs, canon_seq(o.0)) == 1);
    let counts = match count_canonical_faces(elems) {
        Ok(c) => c,
        Err(err) => {
            return Err(err);
        },
    };
    let mut bf: Vec<BoundaryFace> = Vec::new();
    let mut e: usize = 0;
    while e < elems.len()
        invariant
            elements_in_u32(elems@),
            occs == face_occurrences(elems@),
            pred == (|o: (Seq<usize>, int)| canon_count(occs, canon_seq(o.0)) == 1),
            forall|i: int|
                0 <= i < occs.len() ==> counts@.contains_key(
                    pack_key(canon_seq((#[trigger] occs[i]).0)),
                ),
            forall|i: int|
                0 <= i < occs.len() ==> counts@[pack_key(canon_seq((#[trigger] occs[i]).0))] as nat
                    == canon_count(occs, canon_seq(occs[i].0)),
            0 <= e <= elems.len(),
            bf_view(bf@) == occs.subrange(0, 6 * e as int).filter(pred),
        decreases elems.len() - e,
    {
        let faces = elems[e].faces();
        let mut f: usize = 0;
        while f < 6
            invariant
                elements_in_u32(elems@),
                occs == face_occurrences(elems@),
                pred == (|o: (Seq<usize>, int)| canon_count(occs, canon_seq(o.0)) == 1),
                forall|i: int|
                    0 <= i < occs.len() ==> counts@.contains_key(
                        pack_key(canon_seq((#[trigger] occs[i]).0)),
                    ),
                forall|i: int|
                    0 <= i < occs.len() ==> counts@[pack_key(canon_seq((#[trigger] occs[i]).0))]
                        as nat == canon_count(occs, canon_seq(occs[i].0)),
                0 <= e < elems.len(),
                0 <= f <= 6,
                forall|k: int| 0 <= k < 6 ==> #[trigger] faces@[k]@ == hex_face(elems@[e as int], k),
                bf_view(bf@) == occs.subrange(0, 6 * e + f).filter(pred),
            decreases 6 - f,
        {
            let ghost t = 6 * e + f;
            let ghost prefix = occs.subrange(0, t);
            proof {
                lemma_face_occurrences_len(elems@);
                lemma_occurrences_wf(elems@);
                lemma_occ_index(e as int, f as int);
                lemma_face_occurrences_index(elems@, t);
                assert(occs[t].0 == faces@[f as int]@);
            }
            let face = faces[f];
            let key = face.canonical();
            proof {
                assert(forall|j: int| 0 <= j < 4 ==> face@[j] < 0x1_0000_0000);
                lemma_canon_wf(face@);
                assert(key@ == canon_seq(occs[t].0));
            }
            let k = pack_face(&key);
            let c: u64 = match counts.get(&k) {
                Some(v) => *v,
                None => {
                    proof {
                        assert(counts@.contains_key(pack_key(canon_seq(occs[t].0))));
                        assert(false);
                    }
                    0
                },
            };
            proof {
                assert(c as nat == canon_count(occs, key@));
            }
            if c == 1 {
                let b = BoundaryFace { face, element: e };
                bf.push(b);
            }
            proof {
                assert(occs.subrange(0, t + 1) =~= prefix.push(occs[t]));
                lemma_filter_push(prefix, occs[t], pred);
                if c == 1 {
                    assert(pred(occs[t]));
                    assert(bf_view(bf@) =~= prefix.filter(pred).push(
                        (occs[t].0, e as int),
                    ));
                    assert((occs[t].0, e as int) == occs[t]);
                } else {
                    assert(!pred(occs[t]));
                }
            }
            f += 1;
        }
        e += 1;
    }
    proof {
        lemma_face_occurrences_len(elems@);
        assert(occs.subrange(0, 6 * e as int) =~= occs);
        assert forall|x: (Seq<usize>, int)| #[trigger] pred(x) == (canon_count(
            occs,
            canon_seq(x.0),
        ) == 1) by {}
        lemma_filter_ext(
            occs,
            pred,
            |o: (Seq<usize>, int)| canon_count(occs, canon_seq(o.0)) == 1,
        );
        assert(occs.filter(pred) == boundary_model(elems@));
    }
    Ok(bf)
}

/// Which two faces carry an edge, and how often it occurs (clamped at
/// three: enough to decide "exactly two").
#[derive(Clone, Copy)]
struct EdgeEntry {
    count: u64,
    f1: usize,
    f2: usize,
}

/// Faces `i` and `j` share an unordered edge that exactly two of the input
/// faces carry.  This is the neighbor relation of patch segmentation: an
/// edge on one face (a patch border) or on three or more faces (a
/// non-manifold joint) connects nothing.
pub open spec fn share_exclusive_edge(faces: Seq<QuadFace>, i: int, j: int) -> bool {
    exists|wi: int, wj: int|
        0 <= wi < 4 && 0 <= wj < 4 && #[trigger] edge_of(faces[i]@, wi) == #[trigger] edge_of(
            faces[j]@,
            wj,
        ) && edge_count(edge_occurrences(faces), edge_of(faces[i]@, wi)) == 2
}

/// The four edges of a face with pairwise distinct nodes are pairwise
/// distinct.
proof fn lemma_face_edges_distinct(f: Seq<usize>)
    requires
        f.len() == 4,
        crate::types::distinct4(f),
    ensures
        forall|w1: int, w2: int|
            0 <= w1 < w2 < 4 ==> #[trigger] edge_of(f, w1) != #[trigger] edge_of(f, w2),
{
}

/// The edge table is sound for occurrence `m` of the first `cap`: the
/// occurrence's key is in the index, its entry's count is the clamped
/// number of occurrences among the first `cap`, `f1`/`f2` are the faces of
/// the first and second occurrence (positions recorded in `pos`), and a
/// count of one or two lists every occurrence.
spec fn edge_slot_ok(
    eo: Seq<(usize, usize)>,
    ei: Map<u64, usize>,
    entries: Seq<EdgeEntry>,
    pos: Map<u64, (int, int)>,
    cap: int,
    m: int,
) -> bool {
    let e = eo[m];
    let ke = pack_edge_pair(e);
    &&& ei.contains_key(ke)
    &&& (ei[ke] as int) < entries.len()
    &&& pos.contains_key(ke)
    &&& {
        let en = entries[ei[ke] as int];
        let m1 = pos[ke].0;
        let m2 = pos[ke].1;
        &&& en.count as nat == capped_edge_count(eo.subrange(0, cap), e)
        &&& 0 <= m1 < cap && eo[m1] == e && en.f1 == (m1 / 4) as usize
        &&& (en.count >= 2 ==> m1 < m2 < cap && eo[m2] == e && en.f2 == (m2 / 4) as usize)
        &&& (en.count == 1 ==> forall|m3: int| 0 <= m3 < cap && #[trigger] eo[m3] == e ==> m3 == m1)
        &&& (en.count == 2 ==> forall|m3: int|
            0 <= m3 < cap && #[trigger] eo[m3] == e ==> m3 == m1 || m3 == m2)
    }
}

/// The edge table is sound for the first `cap` occurrences, every index
/// key stems from one of them, and distinct keys use distinct entries.
spec fn edge_table_ok(
    eo: Seq<(usize, usize)>,
    ei: Map<u64, usize>,
    entries: Seq<EdgeEntry>,
    pos: Map<u64, (int, int)>,
    cap: int,
) -> bool {
    &&& forall|m: int| 0 <= m < cap ==> #[trigger] edge_slot_ok(eo, ei, entries, pos, cap, m)
    &&& forall|ke: u64| #[trigger]
        ei.contains_key(ke) ==> exists|m: int|
            0 <= m < cap && pack_edge_pair(#[trigger] eo[m]) == ke
    &&& forall|ke1: u64, ke2: u64|
        #[trigger] ei.contains_key(ke1) && #[trigger] ei.contains_key(ke2) && ke1 != ke2 ==> ei[ke1]
            != ei[ke2]
}

/// Every edge occurrence of a well-formed face list is the stated edge of
/// its face, with both node indices below 2^32.
proof fn lemma_edge_occurrences_wf(faces: Seq<QuadFace>)
    requires
        forall|i: int| 0 <= i < faces.len() ==> ids_in_u32((#[trigger] faces[i])@),
    ensures
        forall|m: int|
            0 <= m < edge_occurrences(faces).len() ==> {
                let e = #[trigger] edge_occurrences(faces)[m];
                &&& 0 <= m / 4 < faces.len()
                &&& e == edge_of(faces[m / 4]@, m % 4)
                &&& e.0 < 0x1_0000_0000
                &&& e.1 < 0x1_0000_0000
            },
{
    lemma_edge_occurrences_len(faces);
    let eo = edge_occurrences(faces);
    assert forall|m: int|
        0 <= m < eo.len() implies {
        let e = #[trigger] eo[m];
        &&& 0 <= m / 4 < faces.len()
        &&& e == edge_of(faces[m / 4]@, m % 4)
        &&& e.0 < 0x1_0000_0000
        &&& e.1 < 0x1_0000_0000
    } by {
        lemma_edge_occurrences_index(faces, m);
        assert(0 <= m / 4 < faces.len());
        assert(ids_in_u32(faces[m / 4]@));
    }
}

/// Recording a further occurrence of an edge whose key is already in the
/// table keeps the table sound: the count rises (clamped at three), the
/// second carrier is filled in when the count was one, and every other
/// slot is untouched.
proof fn lemma_edge_table_update(
    eo: Seq<(usize, usize)>,
    ei: Map<u64, usize>,
    pre_entries: Seq<EdgeEntry>,
    entries: Seq<EdgeEntry>,
    pre_pos: Map<u64, (int, int)>,
    pos: Map<u64, (int, int)>,
    t: int,
    ne: EdgeEntry,
)
    requires
        0 <= t < eo.len(),
        forall|m: int|
            0 <= m < eo.len() ==> (#[trigger] eo[m]).0 < 0x1_0000_0000 && eo[m].1 < 0x1_0000_0000,
        edge_table_ok(eo, ei, pre_entries, pre_pos, t),
        ei.contains_key(pack_edge_pair(eo[t])),
        ({
            let pe = pre_entries[ei[pack_edge_pair(eo[t])] as int];
            &&& ne.count as int == (if (pe.count as int) < 3 {
                pe.count as int + 1
            } else {
                pe.count as int
            })
            &&& ne.f1 == pe.f1
            &&& ne.f2 == (if pe.count == 1 {
                (t / 4) as usize
            } else {
                pe.f2
            })
            &&& pos == (if pe.count == 1 {
                pre_pos.insert(
                    pack_edge_pair(eo[t]),
                    (pre_pos[pack_edge_pair(eo[t])].0, t),
                )
            } else {
                pre_pos
            })
        }),
        entries == pre_entries.update(ei[pack_edge_pair(eo[t])] as int, ne),
    ensures
        edge_table_ok(eo, ei, entries, pos, t + 1),
{
    let edge = eo[t];
    let k = pack_edge_pair(edge);
    let prefix = eo.subrange(0, t);
    let prefix1 = eo.subrange(0, t + 1);
    assert(prefix1 =~= prefix.push(eo[t]));
    let e_idx = ei[k] as int;
    // the key stems from an earlier occurrence of this same edge
    let mw = choose|mw: int| 0 <= mw < t && pack_edge_pair(#[trigger] eo[mw]) == k;
    assert(edge_slot_ok(eo, ei, pre_entries, pre_pos, t, mw));
    lemma_pack_edge_injective(eo[mw], edge);
    assert(eo[mw] == edge);
    assert(0 <= e_idx < pre_entries.len());
    let pe = pre_entries[e_idx];
    assert(pe.count as nat == capped_edge_count(prefix, edge));
    assert(prefix[mw] == edge);
    lemma_edge_count_at_least_one(prefix, mw);
    assert(pe.count >= 1);
    lemma_edge_count_push(prefix, eo[t], edge);
    // this edge's slot after the update
    assert(pos.contains_key(k) && pos[k].0 == pre_pos[k].0);
    assert(eo[pos[k].0] == edge && 0 <= pos[k].0 < t);
    assert(ne.f1 == (pos[k].0 / 4) as usize);
    assert(ne.count >= 2);
    if pe.count == 1 {
        assert(pos[k] == (pre_pos[k].0, t));
        assert(ne.count == 2);
        assert(forall|m3: int| 0 <= m3 < t && #[trigger] eo[m3] == edge ==> m3 == pre_pos[k].0);
        assert(forall|m3: int|
            0 <= m3 < t + 1 && #[trigger] eo[m3] == edge ==> m3 == pos[k].0 || m3 == pos[k].1);
    } else {
        assert(pos == pre_pos);
    }
    assert(edge_slot_ok(eo, ei, entries, pos, t + 1, t));
    assert forall|m: int|
        0 <= m < t + 1 implies #[trigger] edge_slot_ok(eo, ei, entries, pos, t + 1, m) by {
        let e = eo[m];
        let ke = pack_edge_pair(e);
        lemma_edge_count_push(prefix, eo[t], e);
        if ke == k {
            lemma_pack_edge_injective(e, edge);
            assert(e == edge);
            assert(edge_slot_ok(eo, ei, entries, pos, t + 1, t));
            assert(edge_slot_ok(eo, ei, entries, pos, t + 1, m));
        } else {
            assert(e != edge) by {
                if e == edge {
                    assert(ke == k);
                }
            }
            assert(m < t);
            assert(edge_slot_ok(eo, ei, pre_entries, pre_pos, t, m));
            assert(pos.contains_key(ke) && pos[ke] == pre_pos[ke]);
            assert(ei[ke] != ei[k]);
            assert(entries[ei[ke] as int] == pre_entries[ei[ke] as int]);
            assert(capped_edge_count(prefix1, e) == capped_edge_count(prefix, e));
            assert(edge_slot_ok(eo, ei, entries, pos, t + 1, m));
        }
    }
    assert forall|ke: u64| #[trigger]
        ei.contains_key(ke) implies exists|m: int|
        0 <= m < t + 1 && pack_edge_pair(#[trigger] eo[m]) == ke by {
        let m0 = choose|m0: int| 0 <= m0 < t && pack_edge_pair(#[trigger] eo[m0]) == ke;
        assert(0 <= m0 < t + 1 && pack_edge_pair(eo[m0]) == ke);
    }
}

/// Recording the first occurrence of a new edge keeps the table sound: a
/// fresh entry with count one is appended and every other slot is
/// untouched.
proof fn lemma_edge_table_insert(
    eo: Seq<(usize, usize)>,
    pre_ei: Map<u64, usize>,
    ei: Map<u64, usize>,
    pre_entries: Seq<EdgeEntry>,
    entries: Seq<EdgeEntry>,
    pre_pos: Map<u64, (int, int)>,
    pos: Map<u64, (int, int)>,
    t: int,
    e_idx: usize,
)
    requires
        0 <= t < eo.len(),
        forall|m: int|
            0 <= m < eo.len() ==> (#[trigger] eo[m]).0 < 0x1_0000_0000 && eo[m].1 < 0x1_0000_0000,
        edge_table_ok(eo, pre_ei, pre_entries, pre_pos, t),
        !pre_ei.contains_key(pack_edge_pair(eo[t])),
        e_idx as int == pre_entries.len(),
        ei == pre_ei.insert(pack_edge_pair(eo[t]), e_idx),
        entries == pre_entries.push(
            EdgeEntry { count: 1, f1: (t / 4) as usize, f2: 0 },
        ),
        pos == pre_pos.insert(pack_edge_pair(eo[t]), (t, t)),
    ensures
        edge_table_ok(eo, ei, entries, pos, t + 1),
{
    let edge = eo[t];
    let k = pack_edge_pair(edge);
    let prefix = eo.subrange(0, t);
    let prefix1 = eo.subrange(0, t + 1);
    assert(prefix1 =~= prefix.push(eo[t]));
    // no earlier occurrence carries this edge
    assert forall|m: int| 0 <= m < t implies (#[trigger] eo[m]) != edge by {
        if eo[m] == edge {
            assert(edge_slot_ok(eo, pre_ei, pre_entries, pre_pos, t, m));
            assert(pack_edge_pair(eo[m]) == k);
        }
    }
    assert(forall|m: int| 0 <= m < prefix.len() ==> (#[trigger] prefix[m]) != edge);
    lemma_edge_count_zero(prefix, edge);
    lemma_edge_count_push(prefix, eo[t], edge);
    assert(capped_edge_count(prefix1, edge) == 1);
    // every existing entry index lies below the fresh one
    assert forall|ke: u64| #[trigger]
        pre_ei.contains_key(ke) implies (pre_ei[ke] as int) < pre_entries.len() by {
        let m0 = choose|m0: int| 0 <= m0 < t && pack_edge_pair(#[trigger] eo[m0]) == ke;
        assert(edge_slot_ok(eo, pre_ei, pre_entries, pre_pos, t, m0));
    }
    assert(edge_slot_ok(eo, ei, entries, pos, t + 1, t));
    assert forall|m: int|
        0 <= m < t + 1 implies #[trigger] edge_slot_ok(eo, ei, entries, pos, t + 1, m) by {
        let e = eo[m];
        let ke = pack_edge_pair(e);
        lemma_edge_count_push(prefix, eo[t], e);
        if ke == k {
            lemma_pack_edge_injective(e, edge);
            assert(e == edge);
            assert(edge_slot_ok(eo, ei, entries, pos, t + 1, t));
            assert(edge_slot_ok(eo, ei, entries, pos, t + 1, m));
        } else {
            assert(e != edge) by {
                if e == edge {
                    assert(ke == k);
                }
            }
            assert(m < t);
            assert(edge_slot_ok(eo, pre_ei, pre_entries, pre_pos, t, m));
            assert(ei.contains_key(ke) && ei[ke] == pre_ei[ke]);
            assert(pos.contains_key(ke) && pos[ke] == pre_pos[ke]);
            assert((pre_ei[ke] as int) < pre_entries.len());
            assert(entries[ei[ke] as int] == pre_entries[pre_ei[ke] as int]);
            assert(capped_edge_count(prefix1, e) == capped_edge_count(prefix, e));
            assert(edge_slot_ok(eo, ei, entries, pos, t + 1, m));
        }
    }
    assert forall|ke: u64| #[trigger]
        ei.contains_key(ke) implies exists|m: int|
        0 <= m < t + 1 && pack_edge_pair(#[trigger] eo[m]) == ke by {
        if ke == k {
            assert(0 <= t < t + 1 && pack_edge_pair(eo[t]) == ke);
        } else {
            let m0 = choose|m0: int| 0 <= m0 < t && pack_edge_pair(#[trigger] eo[m0]) == ke;
            assert(0 <= m0 < t + 1 && pack_edge_pair(eo[m0]) == ke);
        }
    }
    assert forall|ke1: u64, ke2: u64|
        #[trigger] ei.contains_key(ke1) && #[trigger] ei.contains_key(ke2) && ke1 != ke2
        implies ei[ke1] != ei[ke2] by {
        if ke1 != k && ke2 != k {
        } else if ke1 == k {
            assert((pre_ei[ke2] as int) < pre_entries.len());
        } else {
            assert((pre_ei[ke1] as int) < pre_entries.len());
        }
    }
}

/// Build the edge-sharing adjacency of a face list: `j` stands in face
/// `i`'s neighbor list exactly when the two faces share an unordered edge
/// that exactly two of the input faces carry.  The relation is symmetric
/// and never relates a face to itself; each face's neighbor list is
/// ordered by the face's own edge order.
#[verifier::rlimit(100)]
fn build_boundary_face_adjacency(faces: &Vec<QuadFace>) -> (adj: Vec<Vec<usize>>)
    requires
        forall|i: int| 0 <= i < faces@.len() ==> ids_in_u32((#[trigger] faces@[i])@),
        forall|i: int| 0 <= i < faces@.len() ==> crate::types::distinct4((#[trigger] faces@[i])@),
    ensures
        adj@.len() == faces@.len(),
        forall|i: int, t: int|
            0 <= i < adj@.len() && 0 <= t < adj@[i]@.len() ==> (#[trigger] adj@[i]@[t])
                < faces@.len(),
        forall|i: int, j: usize|
            0 <= i < faces@.len() && (j as int) < faces@.len() ==> (
            (#[trigger] adj@[i]@.contains(j)) <==> ((j as int) != i && share_exclusive_edge(
                faces@,
                i,
                j as int,
            ))),
{
    let n = faces.len();
    let ghost eo = edge_occurrences(faces@);
    let mut edge_index: HashMap<u64, usize> = HashMap::new();
    let mut entries: Vec<EdgeEntry> = Vec::new();
    // per packed edge key, the first and second occurrence position
    let ghost mut pos: Map<u64, (int, int)> = Map::empty();
    let mut i: usize = 0;
    while i < n
        invariant
            n == faces@.len(),
            eo == edge_occurrences(faces@),
            forall|j: int| 0 <= j < faces@.len() ==> ids_in_u32((#[trigger] faces@[j])@),
            0 <= i <= n,
            edge_table_ok(eo, edge_index@, entries@, pos, 4 * i as int),
        decreases n - i,
    {
        let face = faces[i];
        let mut w: usize = 0;
        while w < 4
            invariant
                n == faces@.len(),
                eo == edge_occurrences(faces@),
                forall|j: int| 0 <= j < faces@.len() ==> ids_in_u32((#[trigger] faces@[j])@),
                0 <= i < n,
                face == faces@[i as int],
                0 <= w <= 4,
                edge_table_ok(eo, edge_index@, entries@, pos, 4 * i + w),
            decreases 4 - w,
        {
            let ghost t = 4 * i + w;
            proof {
                lemma_edge_occurrences_len(faces@);
                lemma_edge_index(i as int, w as int);
                lemma_edge_occurrences_index(faces@, t);
                lemma_edge_occurrences_wf(faces@);
            }
            let (edge, k) = face_edge(&face, w);
            proof {
                assert(eo[t] == edge);
            }
            match edge_index.get(&k) {
                Some(e_idx) => {
                    let e_idx = *e_idx;
                    proof {
                        // the key's entry index is in range
                        let mw = choose|mw: int|
                            0 <= mw < t && pack_edge_pair(#[trigger] eo[mw]) == k;
                        assert(edge_slot_ok(eo, edge_index@, entries@, pos, t, mw));
                    }
                    let ghost pre_entries = entries@;
                    let ghost pre_pos = pos;
                    let mut entry = entries[e_idx];
                    if entry.count == 1 {
                        entry.f2 = i;
                        proof {
                            pos = pos.insert(k, (pos[k].0, t));
                        }
                    }
                    if entry.count < 3 {
                        entry.count = entry.count + 1;
                    }
                    entries.set(e_idx, entry);
                    proof {
                        assert((t / 4) as usize == i);
                        lemma_edge_table_update(
                            eo,
                            edge_index@,
                            pre_entries,
                            entries@,
                            pre_pos,
                            pos,
                            t,
                            entry,
                        );
                    }
                },
                None => {
                    let e_idx = entries.len();
                    let ghost pre_entries = entries@;
                    let ghost pre_ei = edge_index@;
                    let ghost pre_pos = pos;
                    entries.push(EdgeEntry { count: 1, f1: i, f2: 0 });
                    edge_index.insert(k, e_idx);
                    proof {
                        pos = pos.insert(k, (t, t));
                        assert((t / 4) as usize == i);
                        assert(entries@ == pre_entries.push(
                            EdgeEntry { count: 1, f1: (t / 4) as usize, f2: 0 },
                        ));
                        lemma_edge_table_insert(
                            eo,
                            pre_ei,
                            edge_index@,
                            pre_entries,
                            entries@,
                            pre_pos,
                            pos,
                            t,
                            e_idx,
                        );
                    }
                },
            }
            w += 1;
        }
        i += 1;
    }
    proof {
        lemma_edge_occurrences_len(faces@);
        assert(eo.subrange(0, 4 * i as int) =~= eo);
        assert(edge_table_ok(eo, edge_index@, entries@, pos, eo.len() as int));
    }
    let mut adj: Vec<Vec<usize>> = Vec::new();
    let mut i: usize = 0;
    while i < n
        invariant
            n == faces@.len(),
            eo == edge_occurrences(faces@),
            forall|j: int| 0 <= j < faces@.len() ==> ids_in_u32((#[trigger] faces@[j])@),
            forall|j: int|
                0 <= j < faces@.len() ==> crate::types::distinct4((#[trigger] faces@[j])@),
            edge_table_ok(eo, edge_index@, entries@, pos, eo.len() as int),
            adj@.len() == i,
            0 <= i <= n,
            forall|i2: int, t: int|
                0 <= i2 < adj@.len() && 0 <= t < adj@[i2]@.len() ==> (#[trigger] adj@[i2]@[t]) < n,
            forall|i2: int, j: usize|
                0 <= i2 < i && (j as int) < n ==> ((#[trigger] adj@[i2]@.contains(j)) <==> ((j
                    as int) != i2 && share_exclusive_edge(faces@, i2, j as int))),
        decreases n - i,
    {
        let face = faces[i];
        let mut row: Vec<usize> = Vec::new();
        let mut w: usize = 0;
        while w < 4
            invariant
                n == faces@.len(),
                eo == edge_occurrences(faces@),
                forall|j: int| 0 <= j < faces@.len() ==> ids_in_u32((#[trigger] faces@[j])@),
                forall|j: int|
                    0 <= j < faces@.len() ==> crate::types::distinct4((#[trigger] faces@[j])@),
                edge_table_ok(eo, edge_index@, entries@, pos, eo.len() as int),
                0 <= i < n,
                face == faces@[i as int],
                0 <= w <= 4,
                forall|t: int|
                    0 <= t < row@.len() ==> (#[trigger] row@[t]) < n && (row@[t] as int) != i
                        as int && share_exclusive_edge(faces@, i as int, row@[t] as int),
                forall|w2: int|
                    0 <= w2 < w && edge_count(eo, #[trigger] edge_of(faces@[i as int]@, w2)) == 2
                        ==> exists|t: int, wx: int|
                        0 <= t < row@.len() && 0 <= wx < 4 && #[trigger] edge_of(
                            faces@[row@[t] as int]@,
                            wx,
                        ) == edge_of(faces@[i as int]@, w2),
            decreases 4 - w,
        {
            let ghost t = 4 * i + w;
            proof {
                lemma_edge_occurrences_len(faces@);
                lemma_edge_index(i as int, w as int);
                lemma_edge_occurrences_index(faces@, t);
                lemma_edge_occurrences_wf(faces@);
            }
            let (edge, k) = face_edge(&face, w);
            let ghost old_row = row@;
            match edge_index.get(&k) {
                Some(e_idx) => {
                    proof {
                        assert(eo[t] == edge);
                        assert(edge_slot_ok(eo, edge_index@, entries@, pos, eo.len() as int, t));
                        assert(eo.subrange(0, eo.len() as int) =~= eo);
                    }
                    let entry = entries[*e_idx];
                    if entry.count == 2 {
                        let other = if entry.f1 != i {
                            entry.f1
                        } else {
                            entry.f2
                        };
                        proof {
                            let ke = pack_edge_pair(edge);
                            let m1 = pos[ke].0;
                            let m2 = pos[ke].1;
                            assert(entries@[edge_index@[ke] as int] == entry);
                            assert(edge_count(eo, edge) == 2) by {
                                assert(capped_edge_count(eo, edge) == 2);
                            }
                            // this very occurrence is one of the two
                            assert(t == m1 || t == m2);
                            // the two occurrences lie on different faces
                            assert(m1 / 4 != m2 / 4) by {
                                if m1 / 4 == m2 / 4 {
                                    lemma_edge_occurrences_index(faces@, m1);
                                    lemma_edge_occurrences_index(faces@, m2);
                                    lemma_edge_index(m1 / 4, m1 % 4);
                                    lemma_edge_index(m2 / 4, m2 % 4);
                                    lemma_face_edges_distinct(faces@[m1 / 4]@);
                                    assert(m1 % 4 != m2 % 4);
                                    assert(edge_of(faces@[m1 / 4]@, m1 % 4) == edge_of(
                                        faces@[m2 / 4]@,
                                        m2 % 4,
                                    ));
                                    assert(false);
                                }
                            }
                            let mo = if t == m1 {
                                m2
                            } else {
                                m1
                            };
                            lemma_edge_occurrences_index(faces@, mo);
                            lemma_edge_index(mo / 4, mo % 4);
                            assert(other as int == mo / 4);
                            assert((other as int) != i as int);
                            assert(edge_of(faces@[other as int]@, mo % 4) == edge);
                            assert(share_exclusive_edge(faces@, i as int, other as int)) by {
                                assert(edge_of(faces@[i as int]@, w as int) == edge_of(
                                    faces@[other as int]@,
                                    mo % 4,
                                ));
                            }
                        }
                        row.push(other);
                        proof {
                            assert forall|w2: int|
                                0 <= w2 < w + 1 && edge_count(
                                eo,
                                #[trigger] edge_of(faces@[i as int]@, w2),
                            ) == 2 implies exists|t2: int, wx: int|
                                0 <= t2 < row@.len() && 0 <= wx < 4 && #[trigger] edge_of(
                                    faces@[row@[t2] as int]@,
                                    wx,
                                ) == edge_of(faces@[i as int]@, w2) by {
                                if w2 < w {
                                    let (t2, wx) = choose|t2: int, wx: int|
                                        0 <= t2 < old_row.len() && 0 <= wx < 4
                                            && #[trigger] edge_of(faces@[old_row[t2] as int]@, wx)
                                            == edge_of(faces@[i as int]@, w2);
                                    assert(row@[t2] == old_row[t2]);
                                } else {
                                    let ke = pack_edge_pair(edge);
                                    let m1 = pos[ke].0;
                                    let m2 = pos[ke].1;
                                    let mo = if t == m1 {
                                        m2
                                    } else {
                                        m1
                                    };
                                    assert(row@[row@.len() - 1] == other);
                                    assert(edge_of(faces@[other as int]@, mo % 4) == edge_of(
                                        faces@[i as int]@,
                                        w2,
                                    ));
                                }
                            }
                        }
                    } else {
                        proof {
                            assert(capped_edge_count(eo, edge) == entry.count as nat);
                            assert(edge_count(eo, edge) != 2);
                        }
                    }
                },
                None => {
                    proof {
                        assert(eo[t] == edge);
                        assert(edge_slot_ok(eo, edge_index@, entries@, pos, eo.len() as int, t));
                        assert(false);
                    }
                },
            }
            w += 1;
        }
        adj.push(row);
        proof {
            assert(adj@[i as int] == row);
            assert forall|j: usize|
                (j as int) < n implies ((#[trigger] adj@[i as int]@.contains(j)) <==> ((j as int)
                != i as int && share_exclusive_edge(faces@, i as int, j as int))) by {
                if adj@[i as int]@.contains(j) {
                    let t2 = choose|t2: int| 0 <= t2 < row@.len() && row@[t2] == j;
                }
                if (j as int) != i as int && share_exclusive_edge(faces@, i as int, j as int) {
                    let (wi, wj) = choose|wi: int, wj: int|
                        0 <= wi < 4 && 0 <= wj < 4 && #[trigger] edge_of(faces@[i as int]@, wi)
                            == #[trigger] edge_of(faces@[j as int]@, wj) && edge_count(
                            edge_occurrences(faces@),
                            edge_of(faces@[i as int]@, wi),
                        ) == 2;
                    let e = edge_of(faces@[i as int]@, wi);
                    let (t2, wx) = choose|t2: int, wx: int|
                        0 <= t2 < row@.len() && 0 <= wx < 4 && #[trigger] edge_of(
                            faces@[row@[t2] as int]@,
                            wx,
                        ) == edge_of(faces@[i as int]@, wi);
                    // the pushed neighbor and j are both the second carrier
                    lemma_edge_occurrences_len(faces@);
                    let mi = 4 * (i as int) + wi;
                    let mj = 4 * (j as int) + wj;
                    lemma_edge_index(i as int, wi);
                    lemma_edge_occurrences_index(faces@, mi);
                    assert(eo[mi] == e);
                    assert(edge_slot_ok(eo, edge_index@, entries@, pos, eo.len() as int, mi));
                    assert(eo.subrange(0, eo.len() as int) =~= eo);
                    let ke = pack_edge_pair(e);
                    let m1 = pos[ke].0;
                    let m2 = pos[ke].1;
                    assert(capped_edge_count(eo, e) == 2);
                    assert(entries@[edge_index@[ke] as int].count == 2);
                    lemma_edge_index(j as int, wj);
                    lemma_edge_occurrences_index(faces@, mj);
                    assert(eo[mj] == e);
                    assert(mi == m1 || mi == m2);
                    assert(mj == m1 || mj == m2);
                    let jt = row@[t2];
                    let mt = 4 * (jt as int) + wx;
                    lemma_edge_index(jt as int, wx);
                    lemma_edge_occurrences_index(faces@, mt);
                    assert(eo[mt] == e);
                    assert(mt == m1 || mt == m2);
                    assert(mi != mj);
                    assert((jt as int) != i as int);
                    assert(mt != mi);
                    assert(mt == mj);
                    assert(jt == j);
                    assert(row@.contains(j));
                }
            }
        }
        i += 1;
    }
    adj
}

/// Filtering preserves strict ascending order.
pub(crate) proof fn lemma_filter_sorted(s: Seq<usize>, p: spec_fn(usize) -> bool)
    requires
        forall|x: int, y: int| 0 <= x < y < s.len() ==> s[x] < s[y],
    ensures
        forall|x: int, y: int|
            0 <= x < y < s.filter(p).len() ==> (#[trigger] s.filter(p)[x]) < (#[trigger] s.filter(
                p,
            )[y]),
    decreases s.len(),
{
    reveal(Seq::filter);
    if s.len() > 0 {
        let d = s.drop_last();
        assert(forall|x: int, y: int| 0 <= x < y < d.len() ==> d[x] < d[y]);
        lemma_filter_sorted(d, p);
        let fd = d.filter(p);
        assert forall|x: int| 0 <= x < fd.len() implies (#[trigger] fd[x]) < s.last() by {
            assert(fd.contains(fd[x]));
            d.lemma_filter_contains_rev(p, fd[x]);
            let q = choose|q: int| 0 <= q < d.len() && d[q] == fd[x];
            assert(s[q] < s[s.len() - 1]);
        }
        if p(s.last()) {
            assert(s.filter(p) =~= fd.push(s.last()));
        } else {
            assert(s.filter(p) =~= fd);
        }
    }
}

/// One matching position in a filtered view witnesses one matching source
/// element.
proof fn lemma_filter_one_position<A>(
    s: Seq<A>,
    p: spec_fn(A) -> bool,
    q: spec_fn(A) -> bool,
    k: int,
)
    requires
        0 <= k < s.filter(p).len(),
        q(s.filter(p)[k]),
    ensures
        s.filter(q).len() >= 1,
    decreases s.len(),
{
    reveal(Seq::filter);
    if s.len() > 0 {
        let d = s.drop_last();
        if p(s.last()) && k == s.filter(p).len() - 1 {
            assert(s.filter(p) == d.filter(p).push(s.last()));
            assert(q(s.last()));
        } else {
            if p(s.last()) {
                assert(s.filter(p)[k] == d.filter(p)[k]);
            }
            lemma_filter_one_position(d, p, q, k);
        }
    }
}

/// Two matching positions in a filtered view witness two matching source
/// elements.
proof fn lemma_filter_two_positions<A>(
    s: Seq<A>,
    p: spec_fn(A) -> bool,
    q: spec_fn(A) -> bool,
    k1: int,
    k2: int,
)
    requires
        0 <= k1 < k2 < s.filter(p).len(),
        q(s.filter(p)[k1]),
        q(s.filter(p)[k2]),
    ensures
        s.filter(q).len() >= 2,
    decreases s.len(),
{
    reveal(Seq::filter);
    if s.len() > 0 {
        let d = s.drop_last();
        if p(s.last()) && k2 == s.filter(p).len() - 1 {
            assert(s.filter(p) == d.filter(p).push(s.last()));
            assert(q(s.last()));
            assert(s.filter(p)[k1] == d.filter(p)[k1]);
            lemma_filter_one_position(d, p, q, k1);
        } else {
            if p(s.last()) {
                assert(s.filter(p)[k1] == d.filter(p)[k1]);
                assert(s.filter(p)[k2] == d.filter(p)[k2]);
            }
            lemma_filter_two_positions(d, p, q, k1, k2);
        }
    }
}

/// No two boundary faces share a canonical form (or, in particular, a node
/// sequence): each boundary face's canonical form occurs exactly once over
/// all elements, so the patches a mesh's boundary splits into are pairwise
/// face-disjoint.
pub proof fn lemma_boundary_faces_distinct(elems: Seq<HexElement>)
    ensures
        forall|k1: int, k2: int|
            0 <= k1 < k2 < boundary_model(elems).len() ==> canon_seq(
                (#[trigger] boundary_model(elems)[k1]).0,
            ) != canon_seq((#[trigger] boundary_model(elems)[k2]).0),
        forall|k1: int, k2: int|
            0 <= k1 < k2 < boundary_model(elems).len() ==> (#[trigger] boundary_model(elems)[k1]).0
                != (#[trigger] boundary_model(elems)[k2]).0,
{
    let occs = face_occurrences(elems);
    let p1 = |o: (Seq<usize>, int)| canon_count(occs, canon_seq(o.0)) == 1;
    let bm = boundary_model(elems);
    assert(bm =~= occs.filter(p1)) by {
        assert(p1 =~= (|o: (Seq<usize>, int)| canon_count(occs, canon_seq(o.0)) == 1));
    }
    assert forall|k1: int, k2: int|
        0 <= k1 < k2 < bm.len() implies canon_seq((#[trigger] bm[k1]).0) != canon_seq(
        (#[trigger] bm[k2]).0,
    ) by {
        if canon_seq(bm[k1].0) == canon_seq(bm[k2].0) {
            let key = canon_seq(bm[k1].0);
            let q = |o: (Seq<usize>, int)| canon_seq(o.0) == key;
            lemma_filter_two_positions(occs, p1, q, k1, k2);
            assert(canon_count(occs, key) >= 2) by {
                lemma_filter_ext(occs, q, |o: (Seq<usize>, int)| canon_seq(o.0) == key);
            }
            occs.lemma_filter_pred(p1, k1);
            assert(p1(bm[k1]));
            assert(canon_count(occs, key) == 1);
        }
    }
}

/// Skin extraction is deterministic: any two boundary-face lists that meet
/// the contract of [`extract_boundary_faces`] for the same elements have
/// the same faces, with the same windings and owners, in the same order.
pub proof fn lemma_boundary_extraction_deterministic(
    elems: Seq<HexElement>,
    b1: Seq<BoundaryFace>,
    b2: Seq<BoundaryFace>,
)
    requires
        bf_view(b1) == boundary_model(elems),
        bf_view(b2) == boundary_model(elems),
    ensures
        bf_view(b1) == bf_view(b2),
        b1.len() == b2.len(),
        forall|k: int|
            0 <= k < b1.len() ==> (#[trigger] b1[k]).face@ == b2[k].face@ && b1[k].element
                == b2[k].element,
{
    assert(bf_view(b1).len() == b1.len());
    assert(bf_view(b2).len() == b2.len());
    assert forall|k: int|
        0 <= k < b1.len() implies (#[trigger] b1[k]).face@ == b2[k].face@ && b1[k].element
        == b2[k].element by {
        assert(bf_view(b1)[k] == (b1[k].face@, b1[k].element as int));
        assert(bf_view(b2)[k] == (b2[k].face@, b2[k].element as int));
        assert(bf_view(b1)[k] == bf_view(b2)[k]);
    }
}

/// The patch index lists, viewed abstractly.
pub open spec fn patches_view(patches: Seq<Vec<usize>>) -> Seq<Seq<usize>> {
    patches.map_values(|v: Vec<usize>| v@)
}

/// Every entry of every patch is a face index below `n`.
pub open spec fn patches_in_range(pv: Seq<Seq<usize>>, n: int) -> bool {
    forall|p: int, t: int|
        0 <= p < pv.len() && 0 <= t < pv[p].len() ==> 0 <= #[trigger] pv[p][t] < n
}

/// No face index appears twice, whether within one patch or in two
/// different patches.
pub open spec fn patches_disjoint(pv: Seq<Seq<usize>>) -> bool {
    forall|p1: int, t1: int, p2: int, t2: int|
        0 <= p1 < pv.len() && 0 <= t1 < pv[p1].len() && 0 <= p2 < pv.len() && 0 <= t2
            < pv[p2].len() && (p1 != p2 || t1 != t2) ==> #[trigger] pv[p1][t1] != #[trigger] pv[p2][t2]
}

/// Face index `i` lies in one of the first `p` patches.
pub open spec fn in_patches_up_to(pv: Seq<Seq<usize>>, p: int, i: int) -> bool {
    exists|q: int, t: int| 0 <= q < p && q < pv.len() && 0 <= t < pv[q].len() && #[trigger] pv[q][t] == i
}

/// Face index `i` lies in some patch.
pub open spec fn in_some_patch(pv: Seq<Seq<usize>>, i: int) -> bool {
    in_patches_up_to(pv, pv.len() as int, i)
}

/// Every face of a patch beyond the seed passes the coplanarity test
/// against the seed face's normal.  The seed is the patch's first entry.
pub open spec fn patches_coplanar(pv: Seq<Seq<usize>>, normals: Seq<FaceNormal>) -> bool {
    forall|p: int, t: int|
        0 <= p < pv.len() && 1 <= t < pv[p].len() ==> coplanar(
            normals[pv[p][0] as int],
            normals[(#[trigger] pv[p][t]) as int],
        )
}

/// Each patch's seed is the smallest face index not claimed by an earlier
/// patch.
pub open spec fn seeds_minimal(pv: Seq<Seq<usize>>) -> bool {
    forall|p: int, i: int|
        0 <= p < pv.len() && pv[p].len() >= 1 && 0 <= i < pv[p][0] ==> #[trigger] in_patches_up_to(
            pv,
            p,
            i,
        )
}

/// Face `b` lies within `n` steps of face `a`, each step crossing an edge
/// that exactly two faces share, moving only through `members`.
pub open spec fn reachable_within(
    faces: Seq<QuadFace>,
    members: Seq<usize>,
    a: usize,
    b: usize,
    n: nat,
) -> bool
    decreases n,
{
    a == b || (n > 0 && exists|c: usize|
        #[trigger] members.contains(c) && share_exclusive_edge(faces, c as int, b as int)
            && reachable_within(faces, members, a, c, (n - 1) as nat))
}

/// Some chain of edge-sharing member faces leads from `a` to `b`.
pub open spec fn edge_connected(
    faces: Seq<QuadFace>,
    members: Seq<usize>,
    a: usize,
    b: usize,
) -> bool {
    exists|n: nat| reachable_within(faces, members, a, b, n)
}

/// Every member of a patch is connected to the patch's seed (its first
/// entry) by a chain of edge-sharing faces that lies inside the patch.
pub open spec fn patch_connected(faces: Seq<QuadFace>, patch: Seq<usize>) -> bool {
    forall|t: int|
        0 <= t < patch.len() ==> edge_connected(faces, patch, patch[0], #[trigger] patch[t])
}

/// No patch can grow: a face that shares a qualifying edge with a patch
/// member and passes the coplanarity test against that patch's seed
/// already belongs to this patch or an earlier one.  Together with
/// connectivity and the minimal-seed rule this pins each patch's member
/// set: it is the seed's connected component among the faces coplanar with
/// it that no earlier patch claimed.
pub open spec fn patches_maximal(
    faces: Seq<QuadFace>,
    normals: Seq<FaceNormal>,
    pv: Seq<Seq<usize>>,
) -> bool {
    forall|p: int, t: int, j: int|
        #![trigger pv[p][t], in_patches_up_to(pv, p + 1, j)]
        0 <= p < pv.len() && 0 <= t < pv[p].len() && 0 <= j < faces.len()
            && share_exclusive_edge(faces, pv[p][t] as int, j) && coplanar(
            normals[pv[p][0] as int],
            normals[j],
        ) ==> in_patches_up_to(pv, p + 1, j)
}

/// Everything patch segmentation guarantees of its output, in one
/// predicate: the index lists partition the faces, each patch is nonempty,
/// headed by its seed, coplanar with it, edge-connected to it, and
/// maximal, and each seed is the smallest unclaimed index.
pub open spec fn valid_segmentation(
    pv: Seq<Seq<usize>>,
    faces: Seq<QuadFace>,
    normals: Seq<FaceNormal>,
) -> bool {
    &&& patches_in_range(pv, faces.len() as int)
    &&& patches_disjoint(pv)
    &&& forall|p: int| 0 <= p < pv.len() ==> (#[trigger] pv[p]).len() >= 1
    &&& patches_coplanar(pv, normals)
    &&& forall|i: int| 0 <= i < faces.len() ==> in_some_patch(pv, i)
    &&& seeds_minimal(pv)
    &&& forall|p: int| 0 <= p < pv.len() ==> patch_connected(faces, #[trigger] pv[p])
    &&& patches_maximal(faces, normals, pv)
}

/// Reachability survives growing the member list.
proof fn lemma_reachable_grows(
    faces: Seq<QuadFace>,
    m1: Seq<usize>,
    m2: Seq<usize>,
    a: usize,
    b: usize,
    n: nat,
)
    requires
        reachable_within(faces, m1, a, b, n),
        forall|c: usize| #[trigger] m1.contains(c) ==> m2.contains(c),
    ensures
        reachable_within(faces, m2, a, b, n),
    decreases n,
{
    if a != b {
        let c = choose|c: usize|
            #[trigger] m1.contains(c) && share_exclusive_edge(faces, c as int, b as int)
                && reachable_within(faces, m1, a, c, (n - 1) as nat);
        lemma_reachable_grows(faces, m1, m2, a, c, (n - 1) as nat);
        assert(m2.contains(c));
    }
}

/// A list of pairwise distinct values below `n` has at most `n` entries.
proof fn lemma_distinct_bounded_len(q: Seq<usize>, n: int)
    requires
        forall|t1: int, t2: int|
            0 <= t1 < q.len() && 0 <= t2 < q.len() && t1 != t2 ==> q[t1] != q[t2],
        forall|t: int| 0 <= t < q.len() ==> #[trigger] q[t] < n,
        0 <= n,
    ensures
        q.len() <= n,
{
    let qi = q.map_values(|x: usize| x as int);
    assert(qi.no_duplicates());
    qi.unique_seq_to_set();
    assert(qi.to_set().subset_of(vstd::set_lib::set_int_range(0, n)));
    vstd::set_lib::lemma_int_range(0, n);
    vstd::set_lib::lemma_len_subset(qi.to_set(), vstd::set_lib::set_int_range(0, n));
}

/// Partition the faces of one block's boundary into locally planar patches
/// by breadth-first flood fill: each patch starts from the lowest-index
/// unclaimed seed face and admits an edge-neighbor exactly when the angle
/// between the neighbor's normal and the seed's normal is within the
/// coplanarity threshold.  `normals[i]` is the quantized outward unit
/// normal of `faces[i]`.
///
/// The returned lists partition `0..faces.len()`: every face index appears
/// in exactly one patch, every patch is nonempty and headed by its seed,
/// each non-seed member is coplanar with its seed, each member is
/// edge-connected to its seed through the patch, no patch could admit a
/// further coplanar edge-neighbor, and each seed is the smallest index not
/// claimed by an earlier patch.
pub fn subdivide_into_surface_patches(faces: &Vec<QuadFace>, normals: &Vec<FaceNormal>) -> (patches:
    Vec<Vec<usize>>)
    requires
        normals@.len() == faces@.len(),
        forall|i: int| 0 <= i < normals@.len() ==> normal_wf(#[trigger] normals@[i]),
        forall|i: int| 0 <= i < faces@.len() ==> ids_in_u32((#[trigger] faces@[i])@),
        forall|i: int| 0 <= i < faces@.len() ==> crate::types::distinct4((#[trigger] faces@[i])@),
    ensures
        patches_in_range(patches_view(patches@), faces@.len() as int),
        patches_disjoint(patches_view(patches@)),
        forall|p: int| 0 <= p < patches@.len() ==> (#[trigger] patches@[p])@.len() >= 1,
        patches_coplanar(patches_view(patches@), normals@),
        forall|i: int| 0 <= i < faces@.len() ==> in_some_patch(patches_view(patches@), i),
        seeds_minimal(patches_view(patches@)),
        forall|p: int|
            0 <= p < patches@.len() ==> patch_connected(faces@, (#[trigger] patches@[p])@),
        patches_maximal(faces@, normals@, patches_view(patches@)),
        valid_segmentation(patches_view(patches@), faces@, normals@),
{
    let n = faces.len();
    let adj = build_boundary_face_adjacency(faces);
    let mut visited: Vec<bool> = Vec::new();
    let mut i0: usize = 0;
    while i0 < n
        invariant
            visited@.len() == i0,
            0 <= i0 <= n,
            forall|j: int| 0 <= j < i0 ==> !(#[trigger] visited@[j]),
        decreases n - i0,
    {
        visited.push(false);
        i0 += 1;
    }
    let mut patches: Vec<Vec<usize>> = Vec::new();
    let mut seed: usize = 0;
    while seed < n
        invariant
            n == faces@.len(),
            normals@.len() == n,
            forall|i: int| 0 <= i < normals@.len() ==> normal_wf(#[trigger] normals@[i]),
            adj@.len() == n,
            forall|i: int, t: int|
                0 <= i < adj@.len() && 0 <= t < adj@[i]@.len() ==> (#[trigger] adj@[i]@[t]) < n,
            forall|i2: int, j: usize|
                0 <= i2 < n && (j as int) < n ==> ((#[trigger] adj@[i2]@.contains(j)) <==> ((j
                    as int) != i2 && share_exclusive_edge(faces@, i2, j as int))),
            forall|p: int|
                0 <= p < patches@.len() ==> patch_connected(faces@, (#[trigger] patches@[p])@),
            patches_maximal(faces@, normals@, patches_view(patches@)),
            visited@.len() == n,
            0 <= seed <= n,
            patches_in_range(patches_view(patches@), n as int),
            patches_disjoint(patches_view(patches@)),
            forall|p: int| 0 <= p < patches@.len() ==> (#[trigger] patches@[p])@.len() >= 1,
            patches_coplanar(patches_view(patches@), normals@),
            seeds_minimal(patches_view(patches@)),
            forall|j: int|
                0 <= j < n ==> ((#[trigger] visited@[j]) <==> in_some_patch(
                    patches_view(patches@),
                    j,
                )),
            forall|j: int| 0 <= j < seed ==> #[trigger] visited@[j],
        decreases n - seed,
    {
        if !visited[seed] {
            let ghost pre_pv = patches_view(patches@);
            let ghost visited0 = visited@;
            let mut queue: Vec<usize> = Vec::new();
            visited.set(seed, true);
            queue.push(seed);
            proof {
                assert(!in_some_patch(pre_pv, seed as int));
                assert(queue@[0] == seed);
                assert(reachable_within(faces@, queue@, seed, seed, 0));
                assert forall|t: int|
                    0 <= t < queue@.len() implies edge_connected(
                    faces@,
                    queue@,
                    seed,
                    #[trigger] queue@[t],
                ) by {
                    assert(t == 0);
                    assert(reachable_within(faces@, queue@, seed, queue@[t], 0));
                    assert(edge_connected(faces@, queue@, seed, queue@[t]));
                }
                assert forall|j: int| 0 <= j < seed implies #[trigger] in_some_patch(pre_pv, j) by {
                    assert(visited0[j]);
                }
                assert forall|j: int|
                    0 <= j < n implies ((#[trigger] visited@[j]) <==> (in_some_patch(pre_pv, j)
                    || queue@.contains(j as usize))) by {
                    if j == seed as int {
                        assert(queue@.contains(seed));
                    } else {
                        assert(visited@[j] == visited0[j]);
                        if queue@.contains(j as usize) {
                            let t = choose|t: int| 0 <= t < queue@.len() && queue@[t] == j as usize;
                            assert(t == 0);
                            assert(false);
                        }
                    }
                }
            }
            let mut qi: usize = 0;
            while qi < queue.len()
                invariant
                    n == faces@.len(),
                    normals@.len() == n,
                    forall|i: int| 0 <= i < normals@.len() ==> normal_wf(#[trigger] normals@[i]),
                    adj@.len() == n,
                    forall|i: int, t: int|
                        0 <= i < adj@.len() && 0 <= t < adj@[i]@.len() ==> (#[trigger] adj@[i]@[t])
                            < n,
                    forall|i2: int, j: usize|
                        0 <= i2 < n && (j as int) < n ==> ((#[trigger] adj@[i2]@.contains(j))
                            <==> ((j as int) != i2 && share_exclusive_edge(faces@, i2, j as int))),
                    visited@.len() == n,
                    0 <= seed < n,
                    pre_pv == patches_view(patches@),
                    patches_in_range(pre_pv, n as int),
                    patches_disjoint(pre_pv),
                    forall|p: int| 0 <= p < patches@.len() ==> (#[trigger] patches@[p])@.len() >= 1,
                    patches_coplanar(pre_pv, normals@),
                    seeds_minimal(pre_pv),
                    forall|j: int| 0 <= j < seed ==> #[trigger] in_some_patch(pre_pv, j),
                    forall|j: int| 0 <= j < seed ==> #[trigger] visited@[j],
                    0 <= qi <= queue@.len(),
                    queue@.len() >= 1,
                    queue@[0] == seed,
                    forall|t: int| 0 <= t < queue@.len() ==> (#[trigger] queue@[t]) < n,
                    forall|t1: int, t2: int|
                        0 <= t1 < queue@.len() && 0 <= t2 < queue@.len() && t1 != t2
                            ==> queue@[t1] != queue@[t2],
                    forall|t: int|
                        1 <= t < queue@.len() ==> coplanar(
                            normals@[seed as int],
                            normals@[(#[trigger] queue@[t]) as int],
                        ),
                    forall|t: int|
                        0 <= t < queue@.len() ==> !in_some_patch(
                            pre_pv,
                            (#[trigger] queue@[t]) as int,
                        ),
                    forall|j: int|
                        0 <= j < n ==> ((#[trigger] visited@[j]) <==> (in_some_patch(pre_pv, j)
                            || queue@.contains(j as usize))),
                    forall|t: int|
                        0 <= t < queue@.len() ==> edge_connected(
                            faces@,
                            queue@,
                            seed,
                            #[trigger] queue@[t],
                        ),
                    patches_maximal(faces@, normals@, pre_pv),
                    forall|t: int, j: int|
                        0 <= t < qi && 0 <= j < n && #[trigger] share_exclusive_edge(
                            faces@,
                            (queue@[t]) as int,
                            j,
                        ) && coplanar(normals@[seed as int], normals@[j]) ==> visited@[j],
                decreases n - qi,
            {
                proof {
                    lemma_distinct_bounded_len(queue@, n as int);
                }
                let cur = queue[qi];
                let row = &adj[cur];
                let mut w: usize = 0;
                while w < row.len()
                    invariant
                        n == faces@.len(),
                        normals@.len() == n,
                        forall|i: int|
                            0 <= i < normals@.len() ==> normal_wf(#[trigger] normals@[i]),
                        visited@.len() == n,
                        0 <= seed < n,
                        pre_pv == patches_view(patches@),
                        adj@.len() == n,
                        forall|i2: int, j: usize|
                            0 <= i2 < n && (j as int) < n ==> ((#[trigger] adj@[i2]@.contains(j))
                                <==> ((j as int) != i2 && share_exclusive_edge(
                                faces@,
                                i2,
                                j as int,
                            ))),
                        forall|t: int| 0 <= t < row@.len() ==> (#[trigger] row@[t]) < n,
                        0 <= w <= row@.len(),
                        0 <= qi < queue@.len(),
                        (cur as int) < n,
                        cur == queue@[qi as int],
                        row == &adj@[cur as int],
                        forall|j: int| 0 <= j < seed ==> #[trigger] visited@[j],
                        queue@.len() >= 1,
                        queue@[0] == seed,
                        forall|t: int| 0 <= t < queue@.len() ==> (#[trigger] queue@[t]) < n,
                        forall|t1: int, t2: int|
                            0 <= t1 < queue@.len() && 0 <= t2 < queue@.len() && t1 != t2
                                ==> queue@[t1] != queue@[t2],
                        forall|t: int|
                            1 <= t < queue@.len() ==> coplanar(
                                normals@[seed as int],
                                normals@[(#[trigger] queue@[t]) as int],
                            ),
                        forall|t: int|
                            0 <= t < queue@.len() ==> !in_some_patch(
                                pre_pv,
                                (#[trigger] queue@[t]) as int,
                            ),
                        forall|j: int|
                            0 <= j < n ==> ((#[trigger] visited@[j]) <==> (in_some_patch(
                                pre_pv,
                                j,
                            ) || queue@.contains(j as usize))),
                        forall|t: int|
                            0 <= t < queue@.len() ==> edge_connected(
                                faces@,
                                queue@,
                                seed,
                                #[trigger] queue@[t],
                            ),
                        forall|t: int, j: int|
                            0 <= t < qi && 0 <= j < n && #[trigger] share_exclusive_edge(
                                faces@,
                                (queue@[t]) as int,
                                j,
                            ) && coplanar(normals@[seed as int], normals@[j]) ==> visited@[j],
                        forall|w2: int|
                            0 <= w2 < w && coplanar(
                                normals@[seed as int],
                                normals@[(#[trigger] row@[w2]) as int],
                            ) ==> visited@[row@[w2] as int],
                    decreases row@.len() - w,
                {
                    let nb = row[w];
                    if !visited[nb] {
                        if normals[seed].is_coplanar_with(&normals[nb]) {
                            let ghost old_queue = queue@;
                            let ghost old_visited = visited@;
                            visited.set(nb, true);
                            queue.push(nb);
                            proof {
                                assert(!old_queue.contains(nb));
                                assert(!in_some_patch(pre_pv, nb as int));
                                assert forall|u: usize| #[trigger]
                                    old_queue.contains(u) implies queue@.contains(u) by {
                                    let t0 = choose|t0: int|
                                        0 <= t0 < old_queue.len() && old_queue[t0] == u;
                                    assert(queue@[t0] == u);
                                }
                                // the new member is one edge step from `cur`
                                assert(old_queue[qi as int] == cur);
                                assert(adj@[cur as int]@[w as int] == nb);
                                assert(adj@[cur as int]@.contains(nb));
                                assert(share_exclusive_edge(faces@, cur as int, nb as int));
                                assert forall|t: int|
                                    0 <= t < queue@.len() implies edge_connected(
                                    faces@,
                                    queue@,
                                    seed,
                                    #[trigger] queue@[t],
                                ) by {
                                    if t < old_queue.len() {
                                        assert(queue@[t] == old_queue[t]);
                                        assert(edge_connected(faces@, old_queue, seed, queue@[t]));
                                        let nn0 = choose|nn0: nat|
                                            reachable_within(
                                                faces@,
                                                old_queue,
                                                seed,
                                                old_queue[t],
                                                nn0,
                                            );
                                        lemma_reachable_grows(
                                            faces@,
                                            old_queue,
                                            queue@,
                                            seed,
                                            old_queue[t],
                                            nn0,
                                        );
                                        assert(edge_connected(faces@, queue@, seed, queue@[t]));
                                    } else {
                                        assert(queue@[t] == nb);
                                        assert(old_queue.contains(cur)
                                            || queue@[qi as int] == cur);
                                        assert(edge_connected(faces@, old_queue, seed, cur)) by {
                                            assert(old_queue[qi as int] == cur);
                                        }
                                        let nn0 = choose|nn0: nat|
                                            reachable_within(faces@, old_queue, seed, cur, nn0);
                                        lemma_reachable_grows(
                                            faces@,
                                            old_queue,
                                            queue@,
                                            seed,
                                            cur,
                                            nn0,
                                        );
                                        assert(queue@[qi as int] == cur);
                                        assert(queue@.contains(cur));
                                        assert(reachable_within(
                                            faces@,
                                            queue@,
                                            seed,
                                            nb,
                                            nn0 + 1,
                                        ));
                                        assert(edge_connected(faces@, queue@, seed, queue@[t]));
                                    }
                                }
                                assert forall|j: int|
                                    0 <= j < n implies ((#[trigger] visited@[j]) <==> (
                                in_some_patch(pre_pv, j) || queue@.contains(j as usize))) by {
                                    if j == nb as int {
                                        assert(queue@[queue@.len() - 1] == nb);
                                        assert(queue@.contains(nb));
                                    } else {
                                        assert(visited@[j] == old_visited[j]);
                                        assert forall|u: usize|
                                            old_queue.contains(u) implies queue@.contains(u) by {
                                            let t = choose|t: int|
                                                0 <= t < old_queue.len() && old_queue[t] == u;
                                            assert(queue@[t] == u);
                                        }
                                        if queue@.contains(j as usize) && j != nb as int {
                                            let t = choose|t: int|
                                                0 <= t < queue@.len() && queue@[t] == j as usize;
                                            assert(t < old_queue.len());
                                            assert(old_queue.contains(j as usize));
                                        }
                                    }
                                }
                            }
                        }
                    }
                    w += 1;
                }
                proof {
                    // every qualifying neighbor of the processed face is settled
                    assert forall|j: int|
                        0 <= j < n && share_exclusive_edge(faces@, cur as int, j) && coplanar(
                            normals@[seed as int],
                            normals@[j],
                        ) implies visited@[j] by {
                        if j == cur as int {
                            assert(queue@.contains(cur)) by {
                                assert(queue@[qi as int] == cur);
                            }
                            assert(visited@[cur as int]);
                        } else {
                            assert(adj@[cur as int]@.contains(j as usize));
                            let w2 = choose|w2: int|
                                0 <= w2 < adj@[cur as int]@.len() && adj@[cur as int]@[w2] == j
                                    as usize;
                            assert(row@[w2] == j as usize);
                            assert(visited@[row@[w2] as int]);
                        }
                    }
                }
                qi += 1;
            }
            let ghost final_queue = queue@;
            let ghost old_patches = patches@;
            proof {
                // the finished queue is connected to its seed
                assert forall|t: int|
                    0 <= t < final_queue.len() implies edge_connected(
                    faces@,
                    final_queue,
                    final_queue[0],
                    #[trigger] final_queue[t],
                ) by {
                    assert(edge_connected(faces@, final_queue, seed, final_queue[t]));
                    let nn0 = choose|nn0: nat|
                        reachable_within(faces@, final_queue, seed, final_queue[t], nn0);
                    assert(final_queue[0] == seed);
                    assert(reachable_within(
                        faces@,
                        final_queue,
                        final_queue[0],
                        final_queue[t],
                        nn0,
                    ));
                    assert(edge_connected(faces@, final_queue, final_queue[0], final_queue[t]));
                }
                assert(patch_connected(faces@, final_queue));
            }
            patches.push(queue);
            proof {
                assert forall|p: int|
                    0 <= p < patches@.len() implies patch_connected(
                    faces@,
                    (#[trigger] patches@[p])@,
                ) by {
                    if p < old_patches.len() {
                        assert(patches@[p] == old_patches[p]);
                    } else {
                        assert(patches@[p]@ == final_queue);
                    }
                }
                let pv = patches_view(patches@);
                assert(pv.len() == pre_pv.len() + 1);
                assert(pv[pre_pv.len() as int] =~= final_queue);
                assert(forall|p: int| 0 <= p < pre_pv.len() ==> pv[p] == pre_pv[p]);
                assert forall|j: int|
                    0 <= j < n implies ((#[trigger] visited@[j]) <==> in_some_patch(pv, j)) by {
                    if in_some_patch(pv, j) {
                        let (q, t) = choose|q: int, t: int|
                            0 <= q < pv.len() && 0 <= t < pv[q].len() && #[trigger] pv[q][t] == j;
                        if q < pre_pv.len() {
                            assert(in_some_patch(pre_pv, j));
                        } else {
                            assert(final_queue[t] == j);
                            assert(final_queue.contains(j as usize));
                        }
                    }
                    if visited@[j] {
                        if in_some_patch(pre_pv, j) {
                            let (q, t) = choose|q: int, t: int|
                                0 <= q < pre_pv.len() && 0 <= t < pre_pv[q].len()
                                    && #[trigger] pre_pv[q][t] == j;
                            assert(pv[q][t] == j);
                            assert(in_some_patch(pv, j));
                        } else {
                            let t = choose|t: int|
                                0 <= t < final_queue.len() && final_queue[t] == j as usize;
                            assert(pv[pre_pv.len() as int][t] == j);
                            assert(in_some_patch(pv, j));
                        }
                    }
                }
                assert forall|p: int, i: int|
                    0 <= p < pv.len() && pv[p].len() >= 1 && 0 <= i < pv[p][0] implies #[trigger] in_patches_up_to(
                    pv,
                    p,
                    i,
                ) by {
                    if p < pre_pv.len() {
                        assert(in_patches_up_to(pre_pv, p, i));
                        let (q, t) = choose|q: int, t: int|
                            0 <= q < p && q < pre_pv.len() && 0 <= t < pre_pv[q].len()
                                && #[trigger] pre_pv[q][t] == i;
                        assert(pv[q][t] == i);
                    } else {
                        assert(pv[p] =~= final_queue);
                        assert(pv[p][0] == seed);
                        assert(0 <= i < seed);
                        assert(in_some_patch(pre_pv, i));
                        let (q, t) = choose|q: int, t: int|
                            0 <= q < pre_pv.len() && 0 <= t < pre_pv[q].len()
                                && #[trigger] pre_pv[q][t] == i;
                        assert(pv[q][t] == i);
                    }
                }
                assert forall|p: int, t: int, j: int|
                    #![trigger pv[p][t], in_patches_up_to(pv, p + 1, j)]
                    0 <= p < pv.len() && 0 <= t < pv[p].len() && 0 <= j < faces@.len()
                        && share_exclusive_edge(faces@, pv[p][t] as int, j) && coplanar(
                        normals@[pv[p][0] as int],
                        normals@[j],
                    ) implies in_patches_up_to(pv, p + 1, j) by {
                    if p < pre_pv.len() {
                        assert(pv[p] == pre_pv[p]);
                        assert(in_patches_up_to(pre_pv, p + 1, j));
                        let (q, u) = choose|q: int, u: int|
                            0 <= q < p + 1 && q < pre_pv.len() && 0 <= u < pre_pv[q].len()
                                && #[trigger] pre_pv[q][u] == j;
                        assert(pv[q][u] == j);
                        assert(in_patches_up_to(pv, p + 1, j));
                    } else {
                        assert(pv[p] =~= final_queue);
                        assert(pv[p][0] == seed);
                        assert(share_exclusive_edge(faces@, (final_queue[t]) as int, j));
                        assert(visited@[j]);
                        assert(in_some_patch(pre_pv, j) || final_queue.contains(j as usize));
                        if in_some_patch(pre_pv, j) {
                            let (q, u) = choose|q: int, u: int|
                                0 <= q < pre_pv.len() && 0 <= u < pre_pv[q].len()
                                    && #[trigger] pre_pv[q][u] == j;
                            assert(pv[q][u] == j);
                        } else {
                            let u = choose|u: int|
                                0 <= u < final_queue.len() && final_queue[u] == j as usize;
                            assert(pv[p][u] == j);
                        }
                        assert(in_patches_up_to(pv, p + 1, j));
                    }
                }
                assert(patches_maximal(faces@, normals@, pv));
            }
        }
        seed += 1;
    }
    proof {
        let pv = patches_view(patches@);
        assert forall|i: int| 0 <= i < faces@.len() implies in_some_patch(pv, i) by {
            assert(visited@[i]);
        }
    }
    patches
}

/// The index of the last mesh block whose element list contains `e`, or
/// `-1` when no block owns the element.  When one element is named by
/// several blocks, the later block wins, matching the order in which a
/// reverse element-to-block table is filled.
pub open spec fn block_of(blocks: Seq<(String, Vec<usize>)>, e: usize) -> int
    decreases blocks.len(),
{
    if blocks.len() == 0 {
        -1
    } else if blocks.last().1@.contains(e) {
        blocks.len() - 1
    } else {
        block_of(blocks.drop_last(), e)
    }
}

/// `block_of` yields `-1` or a valid block index.
pub proof fn lemma_block_of_range(blocks: Seq<(String, Vec<usize>)>, e: usize)
    ensures
        -1 <= block_of(blocks, e) < blocks.len(),
    decreases blocks.len(),
{
    if blocks.len() > 0 && !blocks.last().1@.contains(e) {
        lemma_block_of_range(blocks.drop_last(), e);
    }
}

/// Membership in a sequence extended by one element.
proof fn lemma_contains_push<A>(s: Seq<A>, x: A, e: A)
    ensures
        s.push(x).contains(e) <==> (s.contains(e) || e == x),
{
    if s.contains(e) {
        let t = choose|t: int| 0 <= t < s.len() && s[t] == e;
        assert(s.push(x)[t] == e);
    }
    if e == x {
        assert(s.push(x)[s.len() as int] == e);
    }
    if s.push(x).contains(e) {
        let t = choose|t: int| 0 <= t < s.push(x).len() && s.push(x)[t] == e;
        if t < s.len() {
            assert(s[t] == e);
        }
    }
}

/// The boundary positions that belong to block `b`, in discovery order.
pub open spec fn block_index_seq(
    boundary: Seq<BoundaryFace>,
    blocks: Seq<(String, Vec<usize>)>,
    b: int,
) -> Seq<usize> {
    Seq::new(boundary.len(), |k: int| k as usize).filter(
        |k: usize| block_of(blocks, boundary[k as int].element) == b,
    )
}

/// Partition the boundary faces by owning block: position list `b` of the
/// result holds, in discovery order, the boundary positions whose owning
/// element belongs to mesh block `b`.  Fails with `InvalidMeshTopology`
/// exactly when some boundary face's element is in no block.
pub fn group_by_block(mesh: &Mesh, boundary: &Vec<BoundaryFace>) -> (r: Result<
    Vec<Vec<usize>>,
    ContactDetectorError,
>)
    requires
        forall|k: int|
            0 <= k < boundary@.len() ==> (#[trigger] boundary@[k]).element
                < mesh.elements@.len(),
    ensures
        match r {
            Ok(groups) => {
                &&& groups@.len() == mesh.element_blocks@.len()
                &&& forall|b: int|
                    0 <= b < groups@.len() ==> (#[trigger] groups@[b])@ == block_index_seq(
                        boundary@,
                        mesh.element_blocks@,
                        b,
                    )
                &&& forall|k: int|
                    0 <= k < boundary@.len() ==> block_of(
                        mesh.element_blocks@,
                        (#[trigger] boundary@[k]).element,
                    ) >= 0
            },
            Err(e) => {
                &&& e matches ContactDetectorError::InvalidMeshTopology(_)
                &&& exists|k: int|
                    0 <= k < boundary@.len() && block_of(
                        mesh.element_blocks@,
                        (#[trigger] boundary@[k]).element,
                    ) == -1
            },
        },
{
    let n = mesh.elements.len();
    let blocks = &mesh.element_blocks;
    let num_blocks = blocks.len();
    let ghost bls = mesh.element_blocks@;
    // reverse table: element index -> owning block, last block wins;
    // `num_blocks` stands for "no block".
    let mut owner: Vec<usize> = Vec::new();
    let mut i0: usize = 0;
    while i0 < n
        invariant
            owner@.len() == i0,
            0 <= i0 <= n,
            forall|e: int| 0 <= e < i0 ==> (#[trigger] owner@[e]) == num_blocks,
        decreases n - i0,
    {
        owner.push(num_blocks);
        i0 += 1;
    }
    let mut b: usize = 0;
    while b < num_blocks
        invariant
            n == mesh.elements@.len(),
            bls == mesh.element_blocks@,
            num_blocks == bls.len(),
            blocks == &mesh.element_blocks,
            owner@.len() == n,
            0 <= b <= num_blocks,
            forall|e: usize|
                e < n ==> (#[trigger] owner@[e as int]) as int == (if block_of(
                    bls.subrange(0, b as int),
                    e,
                ) == -1 {
                    num_blocks as int
                } else {
                    block_of(bls.subrange(0, b as int), e)
                }),
        decreases num_blocks - b,
    {
        let list = &blocks[b].1;
        let ghost bprefix = bls.subrange(0, b as int);
        let mut j: usize = 0;
        while j < list.len()
            invariant
                n == mesh.elements@.len(),
                bls == mesh.element_blocks@,
                num_blocks == bls.len(),
                blocks == &mesh.element_blocks,
                owner@.len() == n,
                0 <= b < num_blocks,
                list == &bls[b as int].1,
                bprefix == bls.subrange(0, b as int),
                0 <= j <= list@.len(),
                forall|e: usize|
                    e < n ==> (#[trigger] owner@[e as int]) as int == (if bls[b as int].1@.subrange(
                        0,
                        j as int,
                    ).contains(e) {
                        b as int
                    } else if block_of(bprefix, e) == -1 {
                        num_blocks as int
                    } else {
                        block_of(bprefix, e)
                    }),
            decreases list@.len() - j,
        {
            let idx = list[j];
            let ghost pre_owner = owner@;
            if idx < n {
                owner.set(idx, b);
            }
            proof {
                let sub1 = bls[b as int].1@.subrange(0, j + 1);
                assert(sub1 =~= bls[b as int].1@.subrange(0, j as int).push(
                    bls[b as int].1@[j as int],
                ));
                assert forall|e: usize|
                    e < n implies (#[trigger] owner@[e as int]) as int == (if sub1.contains(e) {
                    b as int
                } else if block_of(bprefix, e) == -1 {
                    num_blocks as int
                } else {
                    block_of(bprefix, e)
                }) by {
                    lemma_contains_push(
                        bls[b as int].1@.subrange(0, j as int),
                        bls[b as int].1@[j as int],
                        e,
                    );
                    if e != idx {
                        assert(owner@[e as int] == pre_owner[e as int]);
                    }
                }
            }
            j += 1;
        }
        proof {
            let bnext = bls.subrange(0, b + 1);
            assert(bnext.drop_last() =~= bprefix);
            assert(bnext.last() == bls[b as int]);
            assert(bls[b as int].1@.subrange(0, list@.len() as int) =~= bls[b as int].1@);
            assert forall|e: usize|
                e < n implies (#[trigger] owner@[e as int]) as int == (if block_of(bnext, e) == -1 {
                num_blocks as int
            } else {
                block_of(bnext, e)
            }) by {
                lemma_block_of_range(bprefix, e);
            }
        }
        b += 1;
    }
    proof {
        assert(bls.subrange(0, num_blocks as int) =~= bls);
    }
    // every boundary face's element must be owned by some block
    let mut k: usize = 0;
    while k < boundary.len()
        invariant
            n == mesh.elements@.len(),
            bls == mesh.element_blocks@,
            num_blocks == bls.len(),
            owner@.len() == n,
            forall|kk: int|
                0 <= kk < boundary@.len() ==> (#[trigger] boundary@[kk]).element < n,
            forall|e: usize|
                e < n ==> (#[trigger] owner@[e as int]) as int == (if block_of(bls, e) == -1 {
                    num_blocks as int
                } else {
                    block_of(bls, e)
                }),
            0 <= k <= boundary@.len(),
            forall|kk: int|
                0 <= kk < k ==> block_of(bls, (#[trigger] boundary@[kk]).element) >= 0,
        decreases boundary@.len() - k,
    {
        let e = boundary[k].element;
        if owner[e] == num_blocks {
            proof {
                lemma_block_of_range(bls, e);
                assert(block_of(bls, boundary@[k as int].element) == -1);
            }
            return Err(
                ContactDetectorError::InvalidMeshTopology(
                    "a boundary face's element is in no block".to_owned(),
                ),
            );
        }
        k += 1;
    }
    // collect the boundary positions of each block, in discovery order
    let mut groups: Vec<Vec<usize>> = Vec::new();
    let mut b: usize = 0;
    while b < num_blocks
        invariant
            n == mesh.elements@.len(),
            bls == mesh.element_blocks@,
            num_blocks == bls.len(),
            owner@.len() == n,
            forall|kk: int|
                0 <= kk < boundary@.len() ==> (#[trigger] boundary@[kk]).element < n,
            forall|e: usize|
                e < n ==> (#[trigger] owner@[e as int]) as int == (if block_of(bls, e) == -1 {
                    num_blocks as int
                } else {
                    block_of(bls, e)
                }),
            groups@.len() == b,
            0 <= b <= num_blocks,
            forall|c: int|
                0 <= c < b ==> (#[trigger] groups@[c])@ == block_index_seq(boundary@, bls, c),
        decreases num_blocks - b,
    {
        let ghost idxseq = Seq::new(boundary@.len(), |k: int| k as usize);
        let ghost pred = (|k: usize| block_of(bls, boundary@[k as int].element) == b as int);
        let mut grp: Vec<usize> = Vec::new();
        let mut k: usize = 0;
        while k < boundary.len()
            invariant
                n == mesh.elements@.len(),
                bls == mesh.element_blocks@,
                num_blocks == bls.len(),
                owner@.len() == n,
                forall|kk: int|
                    0 <= kk < boundary@.len() ==> (#[trigger] boundary@[kk]).element < n,
                forall|e: usize|
                    e < n ==> (#[trigger] owner@[e as int]) as int == (if block_of(bls, e) == -1 {
                        num_blocks as int
                    } else {
                        block_of(bls, e)
                    }),
                0 <= b < num_blocks,
                idxseq == Seq::new(boundary@.len(), |k: int| k as usize),
                pred == (|k: usize| block_of(bls, boundary@[k as int].element) == b as int),
                0 <= k <= boundary@.len(),
                grp@ == idxseq.subrange(0, k as int).filter(pred),
            decreases boundary@.len() - k,
        {
            let ghost prefix = idxseq.subrange(0, k as int);
            let e = boundary[k].element;
            if owner[e] == b {
                grp.push(k);
            }
            proof {
                assert(idxseq.subrange(0, k + 1) =~= prefix.push(idxseq[k as int]));
                lemma_filter_push(prefix, idxseq[k as int], pred);
                lemma_block_of_range(bls, e);
                assert(idxseq[k as int] == k as usize);
                assert(pred(idxseq[k as int]) == (owner@[e as int] == b));
            }
            k += 1;
        }
        proof {
            assert(idxseq.subrange(0, boundary@.len() as int) =~= idxseq);
            assert forall|x: usize| #[trigger] pred(x) == (block_of(
                bls,
                boundary@[x as int].element,
            ) == b as int) by {}
            lemma_filter_ext(
                idxseq,
                pred,
                |k: usize| block_of(bls, boundary@[k as int].element) == b as int,
            );
            assert(grp@ == block_index_seq(boundary@, bls, b as int));
        }
        groups.push(grp);
        b += 1;
    }
    Ok(groups)
}

/// The name of patch `p` of a block: `<block>:patch_<p>`.
pub open spec fn patch_name_spec(block: Seq<char>, p: nat) -> Seq<char> {
    block + ":patch_"@ + dec_str(p)
}

/// Build a patch name from the block name and the patch counter.
fn make_patch_name(block: &str, p: usize) -> (r: String)
    ensures
        r@ == patch_name_spec(block@, p as nat),
{
    let mut r = block.to_owned();
    r.append(":patch_");
    let digits = crate::names::usize_to_string(p);
    r.append(digits.as_str());
    r
}

/// The face appears (by node sequence) among the boundary faces.
pub open spec fn face_in_boundary(bm: Seq<(Seq<usize>, int)>, f: QuadFace) -> bool {
    exists|k: int| 0 <= k < bm.len() && (#[trigger] bm[k]).0 == f@
}

/// Every face of every surface patch is (by node sequence) a boundary face
/// of the mesh.
pub open spec fn surface_faces_in_boundary(
    ss: Seq<SurfaceMesh>,
    bm: Seq<(Seq<usize>, int)>,
) -> bool {
    forall|s: int, t: int|
        0 <= s < ss.len() && 0 <= t < ss[s].faces@.len() ==> face_in_boundary(
            bm,
            #[trigger] ss[s].faces@[t],
        )
}

/// Some surface patch holds a face with this node sequence.
pub open spec fn face_shown(ss: Seq<SurfaceMesh>, key: Seq<usize>) -> bool {
    exists|s: int, t: int|
        0 <= s < ss.len() && 0 <= t < ss[s].faces@.len() && (#[trigger] ss[s].faces@[t])@ == key
}

/// Every boundary face of the mesh appears (by node sequence) in some
/// surface patch.
pub open spec fn boundary_covered(ss: Seq<SurfaceMesh>, bm: Seq<(Seq<usize>, int)>) -> bool {
    forall|k: int| 0 <= k < bm.len() ==> face_shown(ss, (#[trigger] bm[k]).0)
}

/// The name is `<block>:patch_<p>` for one of the mesh's blocks.
pub open spec fn named_for_block(blocks: Seq<(String, Vec<usize>)>, name: Seq<char>) -> bool {
    exists|b: int, p: nat|
        0 <= b < blocks.len() && name == #[trigger] patch_name_spec(blocks[b].0@, p)
}

/// Every surface patch is named `<block>:patch_<p>` for one of the mesh's
/// blocks.
pub open spec fn surfaces_named(ss: Seq<SurfaceMesh>, blocks: Seq<(String, Vec<usize>)>) -> bool {
    forall|s: int| 0 <= s < ss.len() ==> named_for_block(blocks, (#[trigger] ss[s]).part_name@)
}

/// Every surface patch holds at least one face.
pub open spec fn surfaces_nonempty(ss: Seq<SurfaceMesh>) -> bool {
    forall|s: int| 0 <= s < ss.len() ==> (#[trigger] ss[s]).faces@.len() >= 1
}

/// No two faces of any two patches share a node sequence: the extracted
/// patches are pairwise face-disjoint, and no patch repeats a face.
pub open spec fn surfaces_faces_distinct(ss: Seq<SurfaceMesh>) -> bool {
    forall|s1: int, t1: int, s2: int, t2: int|
        0 <= s1 < ss.len() && 0 <= t1 < ss[s1].faces@.len() && 0 <= s2 < ss.len() && 0 <= t2
            < ss[s2].faces@.len() && (s1 != s2 || t1 != t2) ==> (#[trigger] ss[s1].faces@[t1])@
            != (#[trigger] ss[s2].faces@[t2])@
}

/// The face is a boundary face owned by a block before `b`.
pub open spec fn face_from_block_before(
    boundary: Seq<BoundaryFace>,
    bls: Seq<(String, Vec<usize>)>,
    f: QuadFace,
    b: int,
) -> bool {
    exists|k: int|
        0 <= k < boundary.len() && (#[trigger] boundary[k]).face@ == f@ && block_of(
            bls,
            boundary[k].element,
        ) < b
}

/// Every face of every patch is a boundary face owned by a block before
/// `b`.
pub open spec fn faces_from_blocks_before(
    ss: Seq<SurfaceMesh>,
    boundary: Seq<BoundaryFace>,
    bls: Seq<(String, Vec<usize>)>,
    b: int,
) -> bool {
    forall|s: int, t: int|
        0 <= s < ss.len() && 0 <= t < ss[s].faces@.len() ==> face_from_block_before(
            boundary,
            bls,
            #[trigger] ss[s].faces@[t],
            b,
        )
}

/// Raising the block bound keeps the attribution.
proof fn lemma_faces_from_blocks_monotone(
    ss: Seq<SurfaceMesh>,
    boundary: Seq<BoundaryFace>,
    bls: Seq<(String, Vec<usize>)>,
    b1: int,
    b2: int,
)
    requires
        b1 <= b2,
        faces_from_blocks_before(ss, boundary, bls, b1),
    ensures
        faces_from_blocks_before(ss, boundary, bls, b2),
{
    assert forall|s: int, t: int|
        0 <= s < ss.len() && 0 <= t < ss[s].faces@.len() implies face_from_block_before(
        boundary,
        bls,
        #[trigger] ss[s].faces@[t],
        b2,
    ) by {
        assert(face_from_block_before(boundary, bls, ss[s].faces@[t], b1));
        let k = choose|k: int|
            0 <= k < boundary.len() && (#[trigger] boundary[k]).face@ == ss[s].faces@[t]@
                && block_of(bls, boundary[k].element) < b1;
        assert(block_of(bls, boundary[k].element) < b2);
    }
}

/// Check that a face's four node indices are pairwise distinct.
fn face_nodes_distinct(f: &QuadFace) -> (r: bool)
    ensures
        r == crate::types::distinct4(f@),
{
    let n = f.node_ids;
    n[0] != n[1] && n[0] != n[2] && n[0] != n[3] && n[1] != n[2] && n[1] != n[3] && n[2] != n[3]
}

/// The boundary positions owned by block `b`, in discovery order: the
/// model-level counterpart of [`block_index_seq`].
pub open spec fn block_positions(
    bm: Seq<(Seq<usize>, int)>,
    bls: Seq<(String, Vec<usize>)>,
    b: int,
) -> Seq<usize> {
    Seq::new(bm.len(), |k: int| k as usize).filter(
        |k: usize| block_of(bls, (bm[k as int].1) as usize) == b,
    )
}

/// Where block `b`'s first patch stands in the flat output list: the
/// number of patches of all earlier blocks.
pub open spec fn segmentation_offset(pvs: Seq<Seq<Seq<usize>>>, b: int) -> int
    decreases b,
{
    if b <= 0 {
        0
    } else {
        segmentation_offset(pvs, b - 1) + pvs[b - 1].len()
    }
}

/// Offsets are never negative.
proof fn lemma_segmentation_offset_nonneg(pvs: Seq<Seq<Seq<usize>>>, b: int)
    requires
        0 <= b <= pvs.len(),
    ensures
        segmentation_offset(pvs, b) >= 0,
    decreases b,
{
    if b > 0 {
        lemma_segmentation_offset_nonneg(pvs, b - 1);
    }
}

/// A block's patches stand before every later block's offset.
proof fn lemma_segmentation_offset_bound(pvs: Seq<Seq<Seq<usize>>>, c: int, b: int)
    requires
        0 <= c < b <= pvs.len(),
    ensures
        segmentation_offset(pvs, c) + pvs[c].len() <= segmentation_offset(pvs, b),
    decreases b - c,
{
    if c + 1 < b {
        lemma_segmentation_offset_bound(pvs, c + 1, b);
        assert(segmentation_offset(pvs, c + 1) == segmentation_offset(pvs, c) + pvs[c].len());
        assert(segmentation_offset(pvs, c + 2 - 1) >= segmentation_offset(pvs, c + 1));
    }
}

/// Appending a block's segmentation moves no earlier block's offset.
proof fn lemma_segmentation_offset_push(pvs: Seq<Seq<Seq<usize>>>, x: Seq<Seq<usize>>, b: int)
    requires
        0 <= b <= pvs.len(),
    ensures
        segmentation_offset(pvs.push(x), b) == segmentation_offset(pvs, b),
    decreases b,
{
    if b > 0 {
        lemma_segmentation_offset_push(pvs, x, b - 1);
        assert(pvs.push(x)[b - 1] == pvs[b - 1]);
    }
}

/// The output surfaces are exactly what per-block segmentations produce:
/// for each block `b` (in mesh order), `fbs[b]` holds the block's boundary
/// faces in discovery order, `pvs[b]` is a segmentation of them meeting
/// [`valid_segmentation`] under the block's normals, and the output holds
/// one surface per patch — consecutively, block by block — named
/// `<block>:patch_<p>` with `p` counting from zero within the block and
/// holding exactly the patch's faces, in patch order.
/// Blocks before `upto` have well-formed witnesses: `fbs[b]` holds block
/// `b`'s boundary faces in discovery order and `pvs[b]` is a segmentation
/// of them meeting [`valid_segmentation`] under the block's normals.
pub open spec fn segmentation_blocks_ok(
    bm: Seq<(Seq<usize>, int)>,
    bls: Seq<(String, Vec<usize>)>,
    normals: Seq<FaceNormal>,
    pvs: Seq<Seq<Seq<usize>>>,
    fbs: Seq<Seq<QuadFace>>,
    upto: int,
) -> bool {
    forall|b: int|
        0 <= b < upto ==> {
            let posns = block_positions(bm, bls, b);
            &&& (#[trigger] fbs[b]).len() == posns.len()
            &&& (forall|j: int|
                0 <= j < posns.len() ==> (#[trigger] fbs[b][j])@ == bm[posns[j] as int].0)
            &&& valid_segmentation(
                pvs[b],
                fbs[b],
                posns.map_values(|k: usize| normals[k as int]),
            )
        }
}

/// Patch `p` of block `b` stands at its block's offset in `ss`, named
/// `<block>:patch_<p>`, and holds exactly the patch's faces in patch
/// order.
pub open spec fn segmentation_surface_at(
    ss: Seq<SurfaceMesh>,
    bls: Seq<(String, Vec<usize>)>,
    pvs: Seq<Seq<Seq<usize>>>,
    fbs: Seq<Seq<QuadFace>>,
    b: int,
    p: int,
) -> bool {
    let sidx = segmentation_offset(pvs, b) + p;
    &&& 0 <= sidx < ss.len()
    &&& ss[sidx].part_name@ == patch_name_spec(bls[b].0@, p as nat)
    &&& ss[sidx].faces@.len() == pvs[b][p].len()
    &&& (forall|t: int|
        0 <= t < pvs[b][p].len() ==> (#[trigger] ss[sidx].faces@[t]) == fbs[b][pvs[b][p][t] as int])
}

/// Blocks before `upto` have their patches laid out consecutively in `ss`,
/// named `<block>:patch_<p>` with `p` counting from zero within the block
/// and holding exactly the patch's faces in patch order.
pub open spec fn segmentation_surfaces_ok(
    ss: Seq<SurfaceMesh>,
    bls: Seq<(String, Vec<usize>)>,
    pvs: Seq<Seq<Seq<usize>>>,
    fbs: Seq<Seq<QuadFace>>,
    upto: int,
) -> bool {
    forall|b: int, p: int|
        0 <= b < upto && 0 <= p < pvs[b].len() ==> #[trigger] segmentation_surface_at(
            ss,
            bls,
            pvs,
            fbs,
            b,
            p,
        )
}

pub open spec fn surfaces_match_segmentation(
    ss: Seq<SurfaceMesh>,
    bm: Seq<(Seq<usize>, int)>,
    bls: Seq<(String, Vec<usize>)>,
    normals: Seq<FaceNormal>,
    pvs: Seq<Seq<Seq<usize>>>,
    fbs: Seq<Seq<QuadFace>>,
) -> bool {
    &&& pvs.len() == bls.len()
    &&& fbs.len() == bls.len()
    &&& segmentation_blocks_ok(bm, bls, normals, pvs, fbs, bls.len() as int)
    &&& ss.len() == segmentation_offset(pvs, bls.len() as int)
    &&& segmentation_surfaces_ok(ss, bls, pvs, fbs, bls.len() as int)
}

/// A mesh the extractor accepts: node indices in range (with the node
/// count small enough for face keys to pack into machine words), no
/// element face repeating a node index, no face on more than two elements,
/// and every boundary face's element owned by some block.
pub open spec fn mesh_topology_ok(mesh: Mesh) -> bool {
    &&& mesh.node_count <= 0x1_0000_0000
    &&& forall|i: int, j: int|
        0 <= i < mesh.elements@.len() && 0 <= j < 8 ==> (#[trigger] mesh.elements@[i].node_ids@[j])
            < mesh.node_count
    &&& forall|i: int, k: int|
        0 <= i < mesh.elements@.len() && 0 <= k < 6 ==> crate::types::distinct4(
            #[trigger] hex_face(mesh.elements@[i], k),
        )
    &&& forall|i: int|
        0 <= i < face_occurrences(mesh.elements@).len() ==> canon_count(
            face_occurrences(mesh.elements@),
            canon_seq((#[trigger] face_occurrences(mesh.elements@)[i]).0),
        ) <= 2
    &&& forall|k: int|
        0 <= k < boundary_model(mesh.elements@).len() ==> block_of(
            mesh.element_blocks@,
            ((#[trigger] boundary_model(mesh.elements@)[k]).1) as usize,
        ) >= 0
}

/// Extract the surface patches of a volume mesh.  `normals[k]` must be the
/// quantized outward unit normal of the `k`-th boundary face, in the
/// discovery order produced by [`extract_boundary_faces`]; the caller
/// computes these from the node coordinates.
///
/// On success the returned patches are nonempty, named
/// `<block>:patch_<p>` in block order with `p` counting from zero within
/// each block, and their faces are exactly the mesh's boundary faces; the
/// partition of each block's boundary into patches is the flood fill of
/// [`subdivide_into_surface_patches`].  The call succeeds exactly when the
/// mesh passes [`mesh_topology_ok`].
pub fn extract_surface(mesh: &Mesh, normals: &Vec<FaceNormal>) -> (r: Result<
    Vec<SurfaceMesh>,
    ContactDetectorError,
>)
    requires
        normals@.len() == boundary_model(mesh.elements@).len(),
        forall|i: int| 0 <= i < normals@.len() ==> normal_wf(#[trigger] normals@[i]),
    ensures
        r is Ok <==> mesh_topology_ok(*mesh),
        match r {
            Ok(ss) => {
                let bm = boundary_model(mesh.elements@);
                &&& surfaces_nonempty(ss@)
                &&& surface_faces_in_boundary(ss@, bm)
                &&& boundary_covered(ss@, bm)
                &&& surfaces_faces_distinct(ss@)
                &&& surfaces_named(ss@, mesh.element_blocks@)
                &&& exists|pvs: Seq<Seq<Seq<usize>>>, fbs: Seq<Seq<QuadFace>>|
                    surfaces_match_segmentation(
                        ss@,
                        bm,
                        mesh.element_blocks@,
                        normals@,
                        pvs,
                        fbs,
                    )
            },
            Err(e) => e matches ContactDetectorError::InvalidMeshTopology(_),
        },
{
    let ghost bm = boundary_model(mesh.elements@);
    let ghost bls = mesh.element_blocks@;
    // node indices must be in range, and small enough to pack
    if (mesh.node_count as u64) > 0x1_0000_0000u64 {
        return Err(
            ContactDetectorError::InvalidMeshTopology(
                "node count exceeds the supported range".to_owned(),
            ),
        );
    }
    let n_elems = mesh.elements.len();
    let mut i: usize = 0;
    while i < n_elems
        invariant
            n_elems == mesh.elements@.len(),
            0 <= i <= n_elems,
            forall|ii: int, j: int|
                0 <= ii < i && 0 <= j < 8 ==> (#[trigger] mesh.elements@[ii].node_ids@[j])
                    < mesh.node_count,
            forall|ii: int, k: int|
                0 <= ii < i && 0 <= k < 6 ==> crate::types::distinct4(
                    #[trigger] hex_face(mesh.elements@[ii], k),
                ),
        decreases n_elems - i,
    {
        let ids = mesh.elements[i].node_ids;
        let mut j: usize = 0;
        while j < 8
            invariant
                n_elems == mesh.elements@.len(),
                0 <= i < n_elems,
                ids == mesh.elements@[i as int].node_ids,
                0 <= j <= 8,
                forall|jj: int| 0 <= jj < j ==> (#[trigger] ids@[jj]) < mesh.node_count,
            decreases 8 - j,
        {
            if ids[j] >= mesh.node_count {
                return Err(
                    ContactDetectorError::InvalidMeshTopology(
                        "an element names a node index out of range".to_owned(),
                    ),
                );
            }
            j += 1;
        }
        let faces = mesh.elements[i].faces();
        let mut k: usize = 0;
        while k < 6
            invariant
                n_elems == mesh.elements@.len(),
                0 <= i < n_elems,
                forall|kk: int|
                    0 <= kk < 6 ==> #[trigger] faces@[kk]@ == hex_face(
                        mesh.elements@[i as int],
                        kk,
                    ),
                0 <= k <= 6,
                forall|kk: int|
                    0 <= kk < k ==> crate::types::distinct4(
                        hex_face(mesh.elements@[i as int], kk),
                    ),
            decreases 6 - k,
        {
            if !face_nodes_distinct(&faces[k]) {
                return Err(
                    ContactDetectorError::InvalidMeshTopology(
                        "an element face repeats a node index".to_owned(),
                    ),
                );
            }
            k += 1;
        }
        i += 1;
    }
    proof {
        assert(elements_in_u32(mesh.elements@));
    }
    let boundary = match extract_boundary_faces(&mesh.elements) {
        Ok(bf) => bf,
        Err(e) => {
            proof {
                let occs = face_occurrences(mesh.elements@);
                let key = choose|key: Seq<usize>| canon_count(occs, key) >= 3;
                let flt = occs.filter(|o: (Seq<usize>, int)| canon_seq(o.0) == key);
                assert(flt.len() >= 3);
                assert(flt.contains(flt[0]));
                occs.lemma_filter_contains_rev(
                    |o: (Seq<usize>, int)| canon_seq(o.0) == key,
                    flt[0],
                );
                let i0 = choose|i0: int| 0 <= i0 < occs.len() && occs[i0] == flt[0];
                occs.lemma_filter_pred(|o: (Seq<usize>, int)| canon_seq(o.0) == key, 0);
                assert(canon_seq(occs[i0].0) == key);
                assert(!mesh_topology_ok(*mesh));
            }
            return Err(e);
        },
    };
    proof {
        assert(bf_view(boundary@) == bm);
        assert(boundary@.len() == bm.len());
        assert forall|k: int|
            0 <= k < boundary@.len() implies (#[trigger] boundary@[k]).element
            < mesh.elements@.len() && ids_in_u32(boundary@[k].face@) && boundary@[k].face@.len()
            == 4 && crate::types::distinct4(boundary@[k].face@) && bm[k] == (
        boundary@[k].face@, boundary@[k].element as int) by {
            let occs = face_occurrences(mesh.elements@);
            assert(bm[k] == bf_view(boundary@)[k]);
            assert(bm.contains(bm[k]));
            occs.lemma_filter_contains_rev(
                |o: (Seq<usize>, int)| canon_count(occs, canon_seq(o.0)) == 1,
                bm[k],
            );
            let i0 = choose|i0: int| 0 <= i0 < occs.len() && occs[i0] == bm[k];
            lemma_occurrences_wf(mesh.elements@);
            assert(occs[i0].0.len() == 4 && ids_in_u32(occs[i0].0) && 0 <= occs[i0].1
                < mesh.elements@.len());
            assert(occs[i0].0 == hex_face(mesh.elements@[occs[i0].1], i0 % 6));
            assert(0 <= i0 % 6 < 6);
            assert(crate::types::distinct4(hex_face(mesh.elements@[occs[i0].1], i0 % 6)));
        }
    }
    let groups = match group_by_block(mesh, &boundary) {
        Ok(g) => g,
        Err(e) => {
            proof {
                let k = choose|k: int|
                    0 <= k < boundary@.len() && block_of(
                        bls,
                        (#[trigger] boundary@[k]).element,
                    ) == -1;
                assert(bm[k].1 == boundary@[k].element as int);
                assert(!mesh_topology_ok(*mesh));
            }
            return Err(e);
        },
    };
    proof {
        assert forall|k: int|
            0 <= k < bm.len() implies block_of(bls, ((#[trigger] bm[k]).1) as usize) >= 0 by {
            assert(bm[k].1 == boundary@[k].element as int);
            assert(block_of(bls, boundary@[k].element) >= 0);
        }
        assert(mesh_topology_ok(*mesh));
    }
    let num_blocks = mesh.element_blocks.len();
    let mut surfaces: Vec<SurfaceMesh> = Vec::new();
    // the per-block segmentations and face lists behind the output, kept to
    // witness that the output is exactly what they produce
    let ghost mut pvs_acc: Seq<Seq<Seq<usize>>> = Seq::empty();
    let ghost mut fbs_acc: Seq<Seq<QuadFace>> = Seq::empty();
    let mut b: usize = 0;
    while b < num_blocks
        invariant
            bm == boundary_model(mesh.elements@),
            bls == mesh.element_blocks@,
            num_blocks == bls.len(),
            bf_view(boundary@) == bm,
            boundary@.len() == bm.len(),
            normals@.len() == bm.len(),
            forall|i: int| 0 <= i < normals@.len() ==> normal_wf(#[trigger] normals@[i]),
            forall|k: int|
                0 <= k < boundary@.len() ==> (#[trigger] boundary@[k]).element
                    < mesh.elements@.len() && ids_in_u32(boundary@[k].face@)
                    && crate::types::distinct4(boundary@[k].face@) && bm[k] == (
                boundary@[k].face@, boundary@[k].element as int),
            groups@.len() == num_blocks,
            forall|c: int|
                0 <= c < groups@.len() ==> (#[trigger] groups@[c])@ == block_index_seq(
                    boundary@,
                    bls,
                    c,
                ),
            forall|k: int|
                0 <= k < boundary@.len() ==> block_of(bls, (#[trigger] boundary@[k]).element)
                    >= 0,
            0 <= b <= num_blocks,
            surfaces_nonempty(surfaces@),
            surface_faces_in_boundary(surfaces@, bm),
            surfaces_named(surfaces@, bls),
            surfaces_faces_distinct(surfaces@),
            faces_from_blocks_before(surfaces@, boundary@, bls, b as int),
            forall|k: int|
                0 <= k < bm.len() && block_of(bls, (#[trigger] boundary@[k]).element) < b
                    ==> face_shown(surfaces@, bm[k].0),
            pvs_acc.len() == b as int,
            fbs_acc.len() == b as int,
            surfaces@.len() == segmentation_offset(pvs_acc, b as int),
            segmentation_blocks_ok(bm, bls, normals@, pvs_acc, fbs_acc, b as int),
            segmentation_surfaces_ok(surfaces@, bls, pvs_acc, fbs_acc, b as int),
        decreases num_blocks - b,
    {
        let grp = &groups[b];
        let nb = boundary.len();
        proof {
            assert(boundary@.len() == nb as int);
            assert(grp@ == block_index_seq(boundary@, bls, b as int));
            let idxseq = Seq::new(boundary@.len(), |k: int| k as usize);
            assert forall|j: int|
                0 <= j < grp@.len() implies (#[trigger] grp@[j]) < boundary@.len() && block_of(
                bls,
                boundary@[grp@[j] as int].element,
            ) == b as int by {
                let pred = |k: usize| block_of(bls, boundary@[k as int].element) == b as int;
                assert(grp@.contains(grp@[j]));
                idxseq.lemma_filter_pred(pred, j);
                idxseq.lemma_filter_contains_rev(pred, grp@[j]);
                let q = choose|q: int| 0 <= q < idxseq.len() && idxseq[q] == grp@[j];
            }
            let predb = |k: usize| block_of(bls, boundary@[k as int].element) == b as int;
            assert forall|x: int, y: int| 0 <= x < y < idxseq.len() implies idxseq[x]
                < idxseq[y] by {
                assert(idxseq[x] == x as usize);
                assert(idxseq[y] == y as usize);
            }
            lemma_filter_ext(
                idxseq,
                predb,
                |k: usize| block_of(bls, boundary@[k as int].element) == b as int,
            );
            assert(grp@ == idxseq.filter(predb));
            lemma_filter_sorted(idxseq, predb);
            assert(forall|x: int, y: int|
                0 <= x < y < grp@.len() ==> (#[trigger] grp@[x]) < (#[trigger] grp@[y]));
            // the same positions, read off the boundary model
            let idxm = Seq::new(bm.len(), |k: int| k as usize);
            assert(idxm =~= idxseq);
            assert forall|q: int| 0 <= q < idxm.len() implies predb(#[trigger] idxm[q]) == (
            block_of(bls, (bm[idxm[q] as int].1) as usize) == b as int) by {
                assert(idxm[q] == q as usize);
                assert(bm[q] == (boundary@[q].face@, boundary@[q].element as int));
            }
            lemma_filter_ext_on(
                idxm,
                predb,
                |k: usize| block_of(bls, (bm[k as int].1) as usize) == b as int,
            );
            assert(grp@ == block_positions(bm, bls, b as int));
        }
        let mut faces_b: Vec<QuadFace> = Vec::new();
        let mut norms_b: Vec<FaceNormal> = Vec::new();
        let mut j: usize = 0;
        while j < grp.len()
            invariant
                bm == boundary_model(mesh.elements@),
                bls == mesh.element_blocks@,
                bf_view(boundary@) == bm,
                boundary@.len() == bm.len(),
                normals@.len() == bm.len(),
                forall|i: int| 0 <= i < normals@.len() ==> normal_wf(#[trigger] normals@[i]),
                forall|k: int|
                    0 <= k < boundary@.len() ==> (#[trigger] boundary@[k]).element
                        < mesh.elements@.len() && ids_in_u32(boundary@[k].face@)
                        && crate::types::distinct4(boundary@[k].face@) && bm[k] == (
                    boundary@[k].face@, boundary@[k].element as int),
                forall|jj: int|
                    0 <= jj < grp@.len() ==> (#[trigger] grp@[jj]) < boundary@.len(),
                0 <= j <= grp@.len(),
                faces_b@.len() == j,
                norms_b@.len() == j,
                forall|jj: int|
                    0 <= jj < j ==> (#[trigger] faces_b@[jj]) == boundary@[grp@[jj] as int].face,
                forall|jj: int|
                    0 <= jj < j ==> (#[trigger] norms_b@[jj]) == normals@[grp@[jj] as int],
            decreases grp@.len() - j,
        {
            let k = grp[j];
            faces_b.push(boundary[k].face);
            norms_b.push(normals[k]);
            j += 1;
        }
        proof {
            assert forall|jj: int|
                0 <= jj < faces_b@.len() implies crate::types::distinct4(
                (#[trigger] faces_b@[jj])@,
            ) by {
                assert(faces_b@[jj] == boundary@[grp@[jj] as int].face);
            }
        }
        let patches = subdivide_into_surface_patches(&faces_b, &norms_b);
        let ghost pv = patches_view(patches@);
        let ghost base = surfaces@.len() as int;
        let ghost pre_surfaces = surfaces@;
        proof {
            lemma_faces_from_blocks_monotone(surfaces@, boundary@, bls, b as int, b + 1);
        }
        let mut p: usize = 0;
        while p < patches.len()
            invariant
                bm == boundary_model(mesh.elements@),
                bls == mesh.element_blocks@,
                num_blocks == bls.len(),
                bf_view(boundary@) == bm,
                boundary@.len() == bm.len(),
                forall|k: int|
                    0 <= k < boundary@.len() ==> (#[trigger] boundary@[k]).element
                        < mesh.elements@.len() && ids_in_u32(boundary@[k].face@)
                        && crate::types::distinct4(boundary@[k].face@) && bm[k] == (
                    boundary@[k].face@, boundary@[k].element as int),
                forall|jj: int|
                    0 <= jj < grp@.len() ==> (#[trigger] grp@[jj]) < boundary@.len(),
                faces_b@.len() == grp@.len(),
                forall|jj: int|
                    0 <= jj < grp@.len() ==> (#[trigger] faces_b@[jj]) == boundary@[grp@[jj]
                        as int].face,
                0 <= b < num_blocks,
                forall|jj: int|
                    0 <= jj < grp@.len() ==> block_of(
                        bls,
                        boundary@[(#[trigger] grp@[jj]) as int].element,
                    ) == b as int,
                forall|x: int, y: int|
                    0 <= x < y < grp@.len() ==> (#[trigger] grp@[x]) < (#[trigger] grp@[y]),
                pv == patches_view(patches@),
                patches_in_range(pv, faces_b@.len() as int),
                patches_disjoint(pv),
                forall|pp: int| 0 <= pp < patches@.len() ==> (#[trigger] patches@[pp])@.len() >= 1,
                0 <= p <= patches@.len(),
                base == pre_surfaces.len(),
                surfaces@.len() == base + p,
                forall|s: int| 0 <= s < base ==> (#[trigger] surfaces@[s]) == pre_surfaces[s],
                faces_from_blocks_before(pre_surfaces, boundary@, bls, b as int),
                surfaces_nonempty(surfaces@),
                surface_faces_in_boundary(surfaces@, bm),
                surfaces_named(surfaces@, bls),
                surfaces_faces_distinct(surfaces@),
                faces_from_blocks_before(surfaces@, boundary@, bls, b + 1),
                forall|pp: int, t: int|
                    0 <= pp < p && 0 <= t < pv[pp].len() ==> #[trigger] surfaces@[base + pp].faces@[t]
                        == faces_b@[pv[pp][t] as int],
                forall|pp: int|
                    0 <= pp < p ==> (#[trigger] surfaces@[base + pp]).faces@.len() == pv[pp].len(),
                forall|pp: int|
                    0 <= pp < p ==> (#[trigger] surfaces@[base + pp]).part_name@
                        == patch_name_spec(bls[b as int].0@, pp as nat),
            decreases patches@.len() - p,
        {
            let patch = &patches[p];
            let name = make_patch_name(mesh.element_blocks[b].0.as_str(), p);
            let mut pf: Vec<QuadFace> = Vec::new();
            let mut t: usize = 0;
            while t < patch.len()
                invariant
                    faces_b@.len() == grp@.len(),
                    0 <= p < patches@.len(),
                    pv == patches_view(patches@),
                    patch == &patches@[p as int],
                    patches_in_range(pv, faces_b@.len() as int),
                    0 <= t <= patch@.len(),
                    pf@.len() == t,
                    forall|tt: int|
                        0 <= tt < t ==> (#[trigger] pf@[tt]) == faces_b@[patch@[tt] as int],
                decreases patch@.len() - t,
            {
                let fi = patch[t];
                proof {
                    assert(pv[p as int][t as int] == patch@[t as int]);
                }
                pf.push(faces_b[fi]);
                t += 1;
            }
            let sm = SurfaceMesh { part_name: name, faces: pf };
            let ghost prev = surfaces@;
            surfaces.push(sm);
            proof {
                assert(surfaces@.len() == prev.len() + 1);
                assert(surfaces@[prev.len() as int] == sm);
                assert(forall|s: int| 0 <= s < prev.len() ==> surfaces@[s] == prev[s]);
                assert(sm.faces@.len() == patch@.len());
                assert(pv[p as int] == patches@[p as int]@);
                assert forall|s: int|
                    0 <= s < surfaces@.len() implies (#[trigger] surfaces@[s]).faces@.len()
                    >= 1 by {
                    if s < prev.len() {
                        assert(surfaces@[s] == prev[s]);
                    } else {
                        assert(patches@[p as int]@.len() >= 1);
                    }
                }
                assert forall|s: int, t2: int|
                    0 <= s < surfaces@.len() && 0 <= t2 < surfaces@[s].faces@.len()
                    implies face_in_boundary(bm, #[trigger] surfaces@[s].faces@[t2]) by {
                    if s < prev.len() {
                        assert(surfaces@[s] == prev[s]);
                        assert(0 <= t2 < prev[s].faces@.len());
                        assert(face_in_boundary(bm, prev[s].faces@[t2]));
                    } else {
                        let fi = pv[p as int][t2];
                        assert(surfaces@[s].faces@[t2] == pf@[t2]);
                        assert(pf@[t2] == faces_b@[patch@[t2] as int]);
                        assert(patch@[t2] == pv[p as int][t2]);
                        let k = grp@[fi as int];
                        assert(0 <= fi < faces_b@.len());
                        assert(faces_b@[fi as int] == boundary@[grp@[fi as int] as int].face);
                        assert(bm[k as int].0 == boundary@[k as int].face@);
                        assert(bm[k as int].0 == surfaces@[s].faces@[t2]@);
                    }
                }
                assert(surface_faces_in_boundary(surfaces@, bm));
                assert forall|s: int|
                    0 <= s < surfaces@.len() implies named_for_block(
                    bls,
                    (#[trigger] surfaces@[s]).part_name@,
                ) by {
                    if s < prev.len() {
                        assert(surfaces@[s] == prev[s]);
                        assert(named_for_block(bls, prev[s].part_name@));
                    } else {
                        assert(surfaces@[s].part_name@ == patch_name_spec(
                            bls[b as int].0@,
                            p as nat,
                        ));
                    }
                }
                // each new face is a boundary face of this block
                assert forall|t2: int|
                    0 <= t2 < sm.faces@.len() implies {
                    let k = grp@[pv[p as int][t2] as int] as int;
                    &&& 0 <= pv[p as int][t2] < grp@.len()
                    &&& 0 <= k < boundary@.len()
                    &&& (#[trigger] sm.faces@[t2])@ == boundary@[k].face@
                    &&& block_of(bls, boundary@[k].element) == b as int
                } by {
                    let fi = pv[p as int][t2];
                    assert(sm.faces@[t2] == faces_b@[fi as int]);
                    assert(faces_b@[fi as int] == boundary@[grp@[fi as int] as int].face);
                }
                // no two faces anywhere coincide: boundary faces are
                // pairwise distinct, the flood fill never repeats an index,
                // and earlier blocks own different boundary faces
                lemma_boundary_faces_distinct(mesh.elements@);
                assert forall|k1: int, k2: int|
                    0 <= k1 < boundary@.len() && 0 <= k2 < boundary@.len() && k1 != k2
                    implies (#[trigger] boundary@[k1]).face@ != (#[trigger] boundary@[k2]).face@ by {
                    if k1 < k2 {
                        assert(bm[k1].0 != bm[k2].0);
                    } else {
                        assert(bm[k2].0 != bm[k1].0);
                    }
                }
                assert(surfaces_faces_distinct(prev));
                assert forall|s1: int, t1: int, s2: int, t2: int|
                    0 <= s1 < surfaces@.len() && 0 <= t1 < surfaces@[s1].faces@.len() && 0 <= s2
                    < surfaces@.len() && 0 <= t2 < surfaces@[s2].faces@.len() && (s1 != s2 || t1
                    != t2) implies (#[trigger] surfaces@[s1].faces@[t1])@
                    != (#[trigger] surfaces@[s2].faces@[t2])@ by {
                    let new_s = prev.len() as int;
                    if s1 < new_s && s2 < new_s {
                        assert(surfaces@[s1] == prev[s1]);
                        assert(surfaces@[s2] == prev[s2]);
                        assert(prev[s1].faces@[t1]@ != prev[s2].faces@[t2]@);
                    } else if s1 == new_s && s2 == new_s {
                        let j1 = pv[p as int][t1];
                        let j2 = pv[p as int][t2];
                        assert(j1 != j2);
                        let k1 = grp@[j1 as int] as int;
                        let k2 = grp@[j2 as int] as int;
                        assert(k1 != k2) by {
                            if j1 < j2 {
                                assert(grp@[j1 as int] < grp@[j2 as int]);
                            } else {
                                assert(grp@[j2 as int] < grp@[j1 as int]);
                            }
                        }
                        assert(boundary@[k1].face@ != boundary@[k2].face@);
                    } else {
                        // exactly one of the two faces is on the new patch
                        let (sn, tn, so, to) = if s1 == new_s {
                            (s1, t1, s2, t2)
                        } else {
                            (s2, t2, s1, t1)
                        };
                        assert(sn == new_s && so < new_s);
                        let jn = pv[p as int][tn];
                        let kn = grp@[jn as int] as int;
                        assert(surfaces@[sn].faces@[tn]@ == boundary@[kn].face@);
                        assert(block_of(bls, boundary@[kn].element) == b as int);
                        if so < base {
                            assert(surfaces@[so] == pre_surfaces[so]);
                            assert(face_from_block_before(
                                boundary@,
                                bls,
                                pre_surfaces[so].faces@[to],
                                b as int,
                            ));
                            let ko = choose|ko: int|
                                0 <= ko < boundary@.len() && (#[trigger] boundary@[ko]).face@
                                    == pre_surfaces[so].faces@[to]@ && block_of(
                                    bls,
                                    boundary@[ko].element,
                                ) < b as int;
                            if surfaces@[sn].faces@[tn]@ == surfaces@[so].faces@[to]@ {
                                assert(boundary@[kn].face@ == boundary@[ko].face@);
                                assert(kn == ko);
                                assert(false);
                            }
                        } else {
                            let po = so - base;
                            assert(so == base + po);
                            assert(surfaces@[so] == prev[so]);
                            assert(prev[base + po].faces@.len() == pv[po].len());
                            assert(prev[base + po].faces@[to] == faces_b@[pv[po][to] as int]);
                            assert(surfaces@[so].faces@[to] == faces_b@[pv[po][to] as int]);
                            let jo = pv[po][to];
                            assert(jo != jn) by {
                                assert(0 <= po < p);
                                assert(0 <= to < pv[po].len());
                                assert(0 <= tn < pv[p as int].len());
                            }
                            let ko = grp@[jo as int] as int;
                            assert(ko != kn) by {
                                if jo < jn {
                                    assert(grp@[jo as int] < grp@[jn as int]);
                                } else {
                                    assert(grp@[jn as int] < grp@[jo as int]);
                                }
                            }
                            assert(boundary@[ko].face@ != boundary@[kn].face@);
                            assert(surfaces@[so].faces@[to]@ == boundary@[ko].face@);
                        }
                    }
                }
                assert(surfaces_faces_distinct(surfaces@));
                // attribution for the block bound carries to the new patch
                assert forall|s: int, t2: int|
                    0 <= s < surfaces@.len() && 0 <= t2 < surfaces@[s].faces@.len()
                    implies face_from_block_before(
                    boundary@,
                    bls,
                    #[trigger] surfaces@[s].faces@[t2],
                    b + 1,
                ) by {
                    if s < prev.len() {
                        assert(surfaces@[s] == prev[s]);
                        assert(face_from_block_before(boundary@, bls, prev[s].faces@[t2], b + 1));
                    } else {
                        let k = grp@[pv[p as int][t2] as int] as int;
                        assert(boundary@[k].face@ == surfaces@[s].faces@[t2]@);
                        assert(block_of(bls, boundary@[k].element) < b + 1);
                    }
                }
            }
            p += 1;
        }
        proof {
            let ghost old_pvs = pvs_acc;
            let ghost old_fbs = fbs_acc;
            pvs_acc = pvs_acc.push(pv);
            fbs_acc = fbs_acc.push(faces_b@);
            // earlier blocks' offsets are unmoved, and the totals agree
            assert forall|c: int|
                0 <= c <= old_pvs.len() implies segmentation_offset(pvs_acc, c)
                == segmentation_offset(old_pvs, c) by {
                lemma_segmentation_offset_push(old_pvs, pv, c);
            }
            assert(segmentation_offset(pvs_acc, b + 1) == segmentation_offset(old_pvs, b as int)
                + pv.len());
            assert(surfaces@.len() == base + pv.len());
            assert(surfaces@.len() == segmentation_offset(pvs_acc, b + 1));
            assert forall|c: int|
                0 <= c < b + 1 implies {
                let posns = block_positions(bm, bls, c);
                &&& (#[trigger] fbs_acc[c]).len() == posns.len()
                &&& (forall|j2: int|
                    0 <= j2 < posns.len() ==> (#[trigger] fbs_acc[c][j2])@ == bm[posns[j2]
                        as int].0)
                &&& valid_segmentation(
                    pvs_acc[c],
                    fbs_acc[c],
                    posns.map_values(|k: usize| normals@[k as int]),
                )
            } by {
                let posns = block_positions(bm, bls, c);
                if c < b as int {
                    assert(fbs_acc[c] == old_fbs[c]);
                    assert(pvs_acc[c] == old_pvs[c]);
                    assert(segmentation_blocks_ok(bm, bls, normals@, old_pvs, old_fbs, b as int));
                } else {
                    assert(posns == grp@);
                    assert(fbs_acc[c] == faces_b@);
                    assert(pvs_acc[c] == pv);
                    assert(faces_b@.len() == grp@.len());
                    assert forall|j2: int|
                        0 <= j2 < posns.len() implies (#[trigger] fbs_acc[c][j2])@ == bm[posns[j2]
                        as int].0 by {
                        assert(faces_b@[j2] == boundary@[grp@[j2] as int].face);
                        assert(bm[grp@[j2] as int] == (
                            boundary@[grp@[j2] as int].face@,
                            boundary@[grp@[j2] as int].element as int,
                        ));
                    }
                    let mapped = posns.map_values(|k: usize| normals@[k as int]);
                    assert(mapped =~= norms_b@) by {
                        assert(mapped.len() == norms_b@.len());
                        assert forall|j2: int|
                            0 <= j2 < mapped.len() implies mapped[j2] == norms_b@[j2] by {
                            assert(mapped[j2] == normals@[posns[j2] as int]);
                            assert(norms_b@[j2] == normals@[grp@[j2] as int]);
                        }
                    }
                    assert(valid_segmentation(pv, faces_b@, norms_b@));
                    assert(valid_segmentation(pvs_acc[c], fbs_acc[c], mapped));
                }
            }
            assert(segmentation_blocks_ok(bm, bls, normals@, pvs_acc, fbs_acc, b + 1));
            assert(segmentation_surfaces_ok(surfaces@, bls, pvs_acc, fbs_acc, b + 1)) by {
                assert forall|c: int, p2: int|
                    0 <= c < b + 1 && 0 <= p2 < pvs_acc[c].len()
                    implies #[trigger] segmentation_surface_at(
                    surfaces@,
                    bls,
                    pvs_acc,
                    fbs_acc,
                    c,
                    p2,
                ) by {
                    let sidx = segmentation_offset(pvs_acc, c) + p2;
                    if c < b as int {
                        assert(segmentation_surfaces_ok(
                            pre_surfaces,
                            bls,
                            old_pvs,
                            old_fbs,
                            b as int,
                        ));
                        assert(pvs_acc[c] == old_pvs[c]);
                        assert(fbs_acc[c] == old_fbs[c]);
                        assert(old_pvs[c][p2] == pvs_acc[c][p2]);
                        assert(segmentation_offset(pvs_acc, c) == segmentation_offset(
                            old_pvs,
                            c,
                        ));
                        assert(0 <= sidx < pre_surfaces.len()) by {
                            assert(pre_surfaces.len() == segmentation_offset(old_pvs, b as int));
                            lemma_segmentation_offset_nonneg(old_pvs, c);
                            lemma_segmentation_offset_bound(old_pvs, c, b as int);
                            assert(p2 < old_pvs[c].len());
                        }
                        assert(surfaces@[sidx] == pre_surfaces[sidx]);
                        assert(segmentation_surface_at(pre_surfaces, bls, old_pvs, old_fbs, c, p2));
                        assert forall|t: int|
                            0 <= t < pvs_acc[c][p2].len() implies (
                        #[trigger] surfaces@[sidx].faces@[t]) == fbs_acc[c][pvs_acc[c][p2][t]
                            as int] by {
                            assert(pre_surfaces[sidx].faces@[t] == old_fbs[c][old_pvs[c][p2][t]
                                as int]);
                        }
                        assert(segmentation_surface_at(surfaces@, bls, pvs_acc, fbs_acc, c, p2));
                    } else {
                        assert(segmentation_offset(pvs_acc, c) == base);
                        assert(pvs_acc[c] == pv);
                        assert(fbs_acc[c] == faces_b@);
                        assert(sidx == base + p2);
                        assert(surfaces@[base + p2].part_name@ == patch_name_spec(
                            bls[b as int].0@,
                            p2 as nat,
                        ));
                        assert(surfaces@[base + p2].faces@.len() == pv[p2].len());
                        assert forall|t: int|
                            0 <= t < pvs_acc[c][p2].len() implies (
                        #[trigger] surfaces@[sidx].faces@[t]) == fbs_acc[c][pvs_acc[c][p2][t]
                            as int] by {
                            assert(surfaces@[base + p2].faces@[t] == faces_b@[pv[p2][t] as int]);
                        }
                        assert(segmentation_surface_at(surfaces@, bls, pvs_acc, fbs_acc, c, p2));
                    }
                }
            }
            assert forall|k: int|
                0 <= k < bm.len() && block_of(bls, (#[trigger] boundary@[k]).element) < b + 1
                    implies face_shown(surfaces@, bm[k].0) by {
                if block_of(bls, boundary@[k].element) < b as int {
                    assert(face_shown(pre_surfaces, bm[k].0));
                    let (s, t) = choose|s: int, t: int|
                        0 <= s < pre_surfaces.len() && 0 <= t < pre_surfaces[s].faces@.len()
                            && (#[trigger] pre_surfaces[s].faces@[t])@ == bm[k].0;
                    assert(surfaces@[s].faces@[t]@ == bm[k].0);
                } else {
                    // the face belongs to this block: find its slot
                    let idxseq = Seq::new(boundary@.len(), |k2: int| k2 as usize);
                    let pred = |k2: usize| block_of(bls, boundary@[k2 as int].element) == b as int;
                    assert(idxseq[k] == k as usize);
                    assert(pred(idxseq[k]));
                    idxseq.lemma_filter_contains(pred, k);
                    assert(grp@.contains(k as usize));
                    let j = choose|j: int| 0 <= j < grp@.len() && grp@[j] == k as usize;
                    assert(in_some_patch(pv, j));
                    let (pp, tt) = choose|pp: int, tt: int|
                        0 <= pp < pv.len() && 0 <= tt < pv[pp].len() && #[trigger] pv[pp][tt] == j;
                    assert(surfaces@[base + pp].faces@[tt] == faces_b@[j as int]);
                    assert(faces_b@[j as int] == boundary@[k].face);
                    assert(bm[k].0 == surfaces@[base + pp].faces@[tt]@);
                    assert(face_shown(surfaces@, bm[k].0));
                }
            }
        }
        b += 1;
    }
    proof {
        assert forall|k: int| 0 <= k < bm.len() implies face_shown(
            surfaces@,
            (#[trigger] bm[k]).0,
        ) by {
            assert(block_of(bls, boundary@[k].element) >= 0);
            lemma_block_of_range(bls, boundary@[k].element);
            assert(block_of(bls, boundary@[k].element) < num_blocks as int);
        }
        assert(surfaces_match_segmentation(surfaces@, bm, bls, normals@, pvs_acc, fbs_acc));
        assert(exists|pvs: Seq<Seq<Seq<usize>>>, fbs: Seq<Seq<QuadFace>>|
            surfaces_match_segmentation(surfaces@, bm, mesh.element_blocks@, normals@, pvs, fbs));
    }
    Ok(surfaces)
}

/// The `j`-th edge of a quad face, as an unordered node pair (smaller
/// index first).
pub open spec fn edge_of(face: Seq<usize>, j: int) -> (usize, usize)
    recommends
        face.len() == 4,
        0 <= j < 4,
{
    let a = face[j];
    let b = face[(j + 1) % 4];
    if a <= b {
        (a, b)
    } else {
        (b, a)
    }
}

/// The flat list of all `4 * n` edge occurrences of a face list.
#[verifier::opaque]
pub open spec fn edge_occurrences(faces: Seq<QuadFace>) -> Seq<(usize, usize)> {
    Seq::new((4 * faces.len()) as nat, |i: int| edge_of(faces[i / 4]@, i % 4))
}

/// How many edge occurrences equal `e`.
pub open spec fn edge_count(occs: Seq<(usize, usize)>, e: (usize, usize)) -> nat {
    occs.filter(|x: (usize, usize)| x == e).len()
}

/// A face list is closed when every edge is carried by exactly two faces.
pub open spec fn surface_closed(faces: Seq<QuadFace>) -> bool {
    forall|i: int|
        0 <= i < edge_occurrences(faces).len() ==> edge_count(
            edge_occurrences(faces),
            #[trigger] edge_occurrences(faces)[i],
        ) == 2
}

/// What each edge occurrence is.
proof fn lemma_edge_occurrences_index(faces: Seq<QuadFace>, i: int)
    requires
        0 <= i < edge_occurrences(faces).len(),
    ensures
        edge_occurrences(faces).len() == 4 * faces.len(),
        edge_occurrences(faces)[i] == edge_of(faces[i / 4]@, i % 4),
{
    reveal(edge_occurrences);
}

/// The edge occurrence list has four entries per face.
proof fn lemma_edge_occurrences_len(faces: Seq<QuadFace>)
    ensures
        edge_occurrences(faces).len() == 4 * faces.len(),
{
    reveal(edge_occurrences);
}

/// Occurrence index `4 * f + j` decomposes back into face `f`, edge `j`.
proof fn lemma_edge_index(f: int, j: int)
    requires
        0 <= f,
        0 <= j < 4,
    ensures
        (4 * f + j) / 4 == f,
        (4 * f + j) % 4 == j,
{
    vstd::arithmetic::div_mod::lemma_fundamental_div_mod_converse(4 * f + j, 4, f, j);
}

/// Extending an occurrence list by one edge raises that edge's count by
/// one and leaves every other count unchanged.
proof fn lemma_edge_count_push(prefix: Seq<(usize, usize)>, o: (usize, usize), e: (usize, usize))
    ensures
        edge_count(prefix.push(o), e) == edge_count(prefix, e) + (if o == e {
            1int
        } else {
            0int
        }),
{
    reveal(Seq::filter);
    assert(prefix.push(o).drop_last() =~= prefix);
    assert(prefix.push(o).last() == o);
}

/// The edge count clamped at three: enough to decide "exactly two".
pub open spec fn capped_edge_count(occs: Seq<(usize, usize)>, e: (usize, usize)) -> nat {
    if edge_count(occs, e) <= 3 {
        edge_count(occs, e)
    } else {
        3
    }
}

/// An edge that never occurs has count zero.
proof fn lemma_edge_count_zero(occs: Seq<(usize, usize)>, e: (usize, usize))
    requires
        forall|i: int| 0 <= i < occs.len() ==> (#[trigger] occs[i]) != e,
    ensures
        edge_count(occs, e) == 0,
    decreases occs.len(),
{
    reveal(Seq::filter);
    if occs.len() > 0 {
        assert(forall|i: int|
            0 <= i < occs.drop_last().len() ==> (#[trigger] occs.drop_last()[i]) != e);
        lemma_edge_count_zero(occs.drop_last(), e);
    }
}

/// An edge that occurs has a count of at least one.
proof fn lemma_edge_count_at_least_one(occs: Seq<(usize, usize)>, m: int)
    requires
        0 <= m < occs.len(),
    ensures
        edge_count(occs, occs[m]) >= 1,
    decreases occs.len(),
{
    assert(occs =~= occs.drop_last().push(occs.last()));
    lemma_edge_count_push(occs.drop_last(), occs.last(), occs[m]);
    if m < occs.len() - 1 {
        assert(occs.drop_last()[m] == occs[m]);
        lemma_edge_count_at_least_one(occs.drop_last(), m);
    }
}

/// An unordered node pair packed into one `u64`, base 2^32; injective for
/// node indices below 2^32.
#[verifier::opaque]
pub open spec fn pack_edge_pair(e: (usize, usize)) -> u64 {
    (e.0 * 0x100000000 + e.1) as u64
}

/// Packing edges is injective on pairs whose entries fit in 32 bits.
proof fn lemma_pack_edge_injective(e1: (usize, usize), e2: (usize, usize))
    requires
        e1.0 < 0x1_0000_0000,
        e1.1 < 0x1_0000_0000,
        e2.0 < 0x1_0000_0000,
        e2.1 < 0x1_0000_0000,
        pack_edge_pair(e1) == pack_edge_pair(e2),
    ensures
        e1 == e2,
{
    reveal(pack_edge_pair);
    assert(e1.0 * 0x100000000 + e1.1 == e2.0 * 0x100000000 + e2.1);
    assert(e1.0 == e2.0 && e1.1 == e2.1);
}

/// Compute a face's `j`-th edge and its packed key.
fn face_edge(face: &QuadFace, j: usize) -> (r: ((usize, usize), u64))
    requires
        ids_in_u32(face@),
        j < 4,
    ensures
        r.0 == edge_of(face@, j as int),
        r.1 == pack_edge_pair(r.0),
        r.0.0 < 0x1_0000_0000,
        r.0.1 < 0x1_0000_0000,
{
    proof {
        reveal(pack_edge_pair);
    }
    let a = face.node_ids[j];
    let b = face.node_ids[(j + 1) % 4];
    let (lo, hi) = if a <= b {
        (a, b)
    } else {
        (b, a)
    };
    let k: u64 = (lo as u64) * 0x100000000 + (hi as u64);
    ((lo, hi), k)
}

/// Check whether a surface patch is closed: every edge of its faces must
/// be shared by exactly two faces.  An open patch is normal for a patch
/// that covers only part of a component's boundary; the result is
/// diagnostic and checking cannot fail.
pub fn validate_surface_closure(surface: &SurfaceMesh) -> (r: Result<bool, ContactDetectorError>)
    requires
        forall|i: int| 0 <= i < surface.faces@.len() ==> ids_in_u32((#[trigger] surface.faces@[i])@),
    ensures
        r matches Ok(c) && c == surface_closed(surface.faces@),
{
    let faces = &surface.faces;
    let ghost occs = edge_occurrences(faces@);
    let n = faces.len();
    let mut counts: HashMap<u64, u64> = HashMap::new();
    let mut f: usize = 0;
    while f < n
        invariant
            n == faces@.len(),
            occs == edge_occurrences(faces@),
            forall|i: int| 0 <= i < faces@.len() ==> ids_in_u32((#[trigger] faces@[i])@),
            0 <= f <= n,
            forall|i: int|
                0 <= i < 4 * f ==> counts@.contains_key(pack_edge_pair(#[trigger] occs[i])),
            forall|i: int|
                0 <= i < 4 * f ==> counts@[pack_edge_pair(#[trigger] occs[i])] as nat
                    == capped_edge_count(occs.subrange(0, 4 * f as int), occs[i]),
            forall|k: u64|
                counts@.contains_key(k) ==> exists|i: int|
                    0 <= i < 4 * f && pack_edge_pair(#[trigger] occs[i]) == k,
        decreases n - f,
    {
        let face = faces[f];
        let mut j: usize = 0;
        while j < 4
            invariant
                n == faces@.len(),
                occs == edge_occurrences(faces@),
                forall|i: int| 0 <= i < faces@.len() ==> ids_in_u32((#[trigger] faces@[i])@),
                0 <= f < n,
                face == faces@[f as int],
                0 <= j <= 4,
                forall|i: int|
                    0 <= i < 4 * f + j ==> counts@.contains_key(
                        pack_edge_pair(#[trigger] occs[i]),
                    ),
                forall|i: int|
                    0 <= i < 4 * f + j ==> counts@[pack_edge_pair(#[trigger] occs[i])] as nat
                        == capped_edge_count(occs.subrange(0, 4 * f + j), occs[i]),
                forall|k: u64|
                    counts@.contains_key(k) ==> exists|i: int|
                        0 <= i < 4 * f + j && pack_edge_pair(#[trigger] occs[i]) == k,
            decreases 4 - j,
        {
            let ghost t = 4 * f + j;
            let ghost prefix = occs.subrange(0, t);
            proof {
                lemma_edge_occurrences_len(faces@);
                lemma_edge_index(f as int, j as int);
                lemma_edge_occurrences_index(faces@, t);
            }
            let (edge, k) = face_edge(&face, j);
            proof {
                assert(occs[t] == edge);
            }
            let c: u64 = match counts.get(&k) {
                Some(v) => {
                    proof {
                        let i = choose|i: int|
                            0 <= i < t && pack_edge_pair(#[trigger] occs[i]) == k;
                        lemma_edge_occurrences_index(faces@, i);
                        lemma_edge_index(i / 4, i % 4);
                        assert(occs[i].0 < 0x1_0000_0000 && occs[i].1 < 0x1_0000_0000);
                        lemma_pack_edge_injective(occs[i], edge);
                        assert(*v as nat == capped_edge_count(prefix, edge));
                    }
                    *v
                },
                None => {
                    proof {
                        assert forall|i: int| 0 <= i < prefix.len() implies (#[trigger] prefix[i])
                            != edge by {
                            if prefix[i] == edge {
                                assert(pack_edge_pair(occs[i]) == k);
                            }
                        }
                        lemma_edge_count_zero(prefix, edge);
                    }
                    0
                },
            };
            let c2: u64 = if c < 3 {
                c + 1
            } else {
                c
            };
            counts.insert(k, c2);
            proof {
                let prefix1 = occs.subrange(0, t + 1);
                assert(prefix1 =~= prefix.push(occs[t]));
                assert forall|i: int|
                    0 <= i < t + 1 implies counts@[pack_edge_pair(#[trigger] occs[i])] as nat
                    == capped_edge_count(prefix1, occs[i]) by {
                    lemma_edge_count_push(prefix, occs[t], occs[i]);
                    lemma_edge_occurrences_index(faces@, i);
                    lemma_edge_index(i / 4, i % 4);
                    assert(occs[i].0 < 0x1_0000_0000 && occs[i].1 < 0x1_0000_0000);
                    if pack_edge_pair(occs[i]) == k {
                        lemma_pack_edge_injective(occs[i], edge);
                        assert(occs[i] == edge);
                    } else {
                        assert(occs[i] != edge);
                    }
                }
            }
            j += 1;
        }
        f += 1;
    }
    proof {
        lemma_edge_occurrences_len(faces@);
        assert(occs.subrange(0, 4 * n as int) =~= occs);
    }
    // second pass: every edge occurrence must have count exactly two
    let mut closed = true;
    let mut f: usize = 0;
    while f < n
        invariant
            n == faces@.len(),
            occs == edge_occurrences(faces@),
            forall|i: int| 0 <= i < faces@.len() ==> ids_in_u32((#[trigger] faces@[i])@),
            0 <= f <= n,
            forall|i: int|
                0 <= i < occs.len() ==> counts@.contains_key(pack_edge_pair(#[trigger] occs[i])),
            forall|i: int|
                0 <= i < occs.len() ==> counts@[pack_edge_pair(#[trigger] occs[i])] as nat
                    == capped_edge_count(occs, occs[i]),
            closed == (forall|i: int|
                0 <= i < 4 * f ==> edge_count(occs, #[trigger] occs[i]) == 2),
        decreases n - f,
    {
        let face = faces[f];
        let mut j: usize = 0;
        while j < 4
            invariant
                n == faces@.len(),
                occs == edge_occurrences(faces@),
                forall|i: int| 0 <= i < faces@.len() ==> ids_in_u32((#[trigger] faces@[i])@),
                0 <= f < n,
                face == faces@[f as int],
                0 <= j <= 4,
                forall|i: int|
                    0 <= i < occs.len() ==> counts@.contains_key(
                        pack_edge_pair(#[trigger] occs[i]),
                    ),
                forall|i: int|
                    0 <= i < occs.len() ==> counts@[pack_edge_pair(#[trigger] occs[i])] as nat
                        == capped_edge_count(occs, occs[i]),
                closed == (forall|i: int|
                    0 <= i < 4 * f + j ==> edge_count(occs, #[trigger] occs[i]) == 2),
            decreases 4 - j,
        {
            let ghost t = 4 * f + j;
            proof {
                lemma_edge_occurrences_len(faces@);
                lemma_edge_index(f as int, j as int);
                lemma_edge_occurrences_index(faces@, t);
            }
            let (edge, k) = face_edge(&face, j);
            let ghost old_closed = closed;
            let c: u64 = match counts.get(&k) {
                Some(v) => *v,
                None => {
                    proof {
                        assert(counts@.contains_key(pack_edge_pair(occs[t])));
                        assert(false);
                    }
                    0
                },
            };
            if c != 2 {
                closed = false;
            }
            proof {
                assert(c as nat == capped_edge_count(occs, occs[t]));
                assert((c == 2) == (edge_count(occs, occs[t]) == 2));
                if old_closed && c == 2 {
                    assert(closed == (forall|i: int|
                        0 <= i < t + 1 ==> edge_count(occs, #[trigger] occs[i]) == 2));
                } else {
                    assert(!closed);
                    if old_closed {
                        assert(edge_count(occs, occs[t]) != 2);
                    } else {
                        let i0 = choose|i0: int|
                            0 <= i0 < t && edge_count(occs, #[trigger] occs[i0]) != 2;
                        assert(edge_count(occs, occs[i0]) != 2);
                    }
                    assert(!(forall|i: int|
                        0 <= i < t + 1 ==> edge_count(occs, #[trigger] occs[i]) == 2));
                }
            }
            j += 1;
        }
        f += 1;
    }
    proof {
        lemma_edge_occurrences_len(faces@);
        if closed {
            assert(surface_closed(surface.faces@));
        } else {
            assert(!surface_closed(surface.faces@));
        }
    }
    Ok(closed)
}

} // verus!
