//! Conversion of surface patches back to side sets: each patch face is
//! mapped to the element that carries it and that element's local face id,
//! the form mesh files use to store face groups.

use crate::error::ContactDetectorError;
use crate::surface::{
    elements_in_u32, face_occurrences, ids_in_u32, lemma_canon_wf, lemma_pack_key_injective,
    pack_key,
};
use crate::types::{canon_seq, hex_face, HexElement, Mesh, QuadFace, SurfaceMesh};
use std::collections::HashMap;
use vstd::prelude::*;

verus! {

broadcast use vstd::std_specs::hash::group_hash_axioms;

/// The last occurrence position whose face has canonical form `ckey`, or
/// `-1`; the last element wins, matching a reverse table filled in element
/// order.
pub open spec fn last_face_match(occs: Seq<(Seq<usize>, int)>, ckey: Seq<usize>) -> int
    decreases occs.len(),
{
    if occs.len() == 0 {
        -1
    } else if canon_seq(occs.last().0) == ckey {
        occs.len() - 1
    } else {
        last_face_match(occs.drop_last(), ckey)
    }
}

/// A match position decomposes into the element and its local face id.
pub open spec fn side_entry_of(t: int) -> (usize, u8) {
    ((t / 6) as usize, (t % 6) as u8)
}

/// The side set of a face list over a mesh's elements: for each face whose
/// canonical form some element carries, the owning element (last wins) and
/// the local face id, in face order; faces no element carries are skipped.
pub open spec fn sideset_model(elems: Seq<HexElement>, faces: Seq<QuadFace>) -> Seq<(usize, u8)> {
    faces.filter(
        |f: QuadFace| last_face_match(face_occurrences(elems), canon_seq(f@)) != -1,
    ).map_values(|f: QuadFace| side_entry_of(last_face_match(face_occurrences(elems), canon_seq(f@))))
}

/// A canonical form no occurrence carries has no match.
proof fn lemma_last_match_none(occs: Seq<(Seq<usize>, int)>, ckey: Seq<usize>)
    requires
        forall|i: int| 0 <= i < occs.len() ==> canon_seq((#[trigger] occs[i]).0) != ckey,
    ensures
        last_face_match(occs, ckey) == -1,
    decreases occs.len(),
{
    if occs.len() > 0 {
        assert(forall|i: int|
            0 <= i < occs.drop_last().len() ==> canon_seq((#[trigger] occs.drop_last()[i]).0)
                != ckey);
        lemma_last_match_none(occs.drop_last(), ckey);
    }
}

/// Filtering a sequence extended by one element.
proof fn lemma_filter_push<A>(s: Seq<A>, x: A, p: spec_fn(A) -> bool)
    ensures
        s.push(x).filter(p) == (if p(x) {
            s.filter(p).push(x)
        } else {
            s.filter(p)
        }),
{
    reveal(Seq::filter);
    assert(s.push(x).drop_last() =~= s);
    assert(s.push(x).last() == x);
}

/// Convert a surface patch to side-set entries over the mesh it was
/// extracted from: each face is looked up by canonical form among the
/// mesh's element faces and reported as the owning element index and local
/// face id; a face no element carries is skipped.  Conversion cannot fail.
#[verifier::rlimit(100)]
pub fn surface_to_sideset(surface: &SurfaceMesh, mesh: &Mesh) -> (r: Result<
    Vec<(usize, u8)>,
    ContactDetectorError,
>)
    requires
        elements_in_u32(mesh.elements@),
        forall|i: int| 0 <= i < surface.faces@.len() ==> ids_in_u32((#[trigger] surface.faces@[i])@),
    ensures
        r matches Ok(ss) && ss@ == sideset_model(mesh.elements@, surface.faces@),
{
    let ghost occs = face_occurrences(mesh.elements@);
    let mut table: HashMap<u128, (usize, u8)> = HashMap::new();
    let n = mesh.elements.len();
    let mut e: usize = 0;
    while e < n
        invariant
            n == mesh.elements@.len(),
            occs == face_occurrences(mesh.elements@),
            elements_in_u32(mesh.elements@),
            0 <= e <= n,
            forall|i: int|
                0 <= i < 6 * e ==> table@.contains_key(pack_key(canon_seq((#[trigger] occs[i]).0))),
            forall|i: int|
                0 <= i < 6 * e ==> {
                    let t = last_face_match(
                        occs.subrange(0, 6 * e as int),
                        canon_seq((#[trigger] occs[i]).0),
                    );
                    &&& t != -1
                    &&& table@[pack_key(canon_seq(occs[i].0))] == side_entry_of(t)
                },
            forall|k: u128|
                table@.contains_key(k) ==> exists|i: int|
                    0 <= i < 6 * e && pack_key(canon_seq((#[trigger] occs[i]).0)) == k,
        decreases n - e,
    {
        let faces = mesh.elements[e].faces();
        let mut f: usize = 0;
        while f < 6
            invariant
                n == mesh.elements@.len(),
                occs == face_occurrences(mesh.elements@),
                elements_in_u32(mesh.elements@),
                0 <= e < n,
                0 <= f <= 6,
                forall|k: int| 0 <= k < 6 ==> #[trigger] faces@[k]@ == hex_face(
                    mesh.elements@[e as int],
                    k,
                ),
                forall|i: int|
                    0 <= i < 6 * e + f ==> table@.contains_key(
                        pack_key(canon_seq((#[trigger] occs[i]).0)),
                    ),
                forall|i: int|
                    0 <= i < 6 * e + f ==> {
                        let t = last_face_match(
                            occs.subrange(0, 6 * e + f),
                            canon_seq((#[trigger] occs[i]).0),
                        );
                        &&& t != -1
                        &&& table@[pack_key(canon_seq(occs[i].0))] == side_entry_of(t)
                    },
                forall|k: u128|
                    table@.contains_key(k) ==> exists|i: int|
                        0 <= i < 6 * e + f && pack_key(canon_seq((#[trigger] occs[i]).0)) == k,
            decreases 6 - f,
        {
            let ghost t = 6 * e + f;
            let ghost prefix = occs.subrange(0, t);
            proof {
                crate::surface::lemma_occurrences_wf(mesh.elements@);
                crate::surface::lemma_face_occurrences_len(mesh.elements@);
                crate::surface::lemma_occ_index(e as int, f as int);
                crate::surface::lemma_face_occurrences_index(mesh.elements@, t);
                assert(occs[t].0 == faces@[f as int]@);
            }
            let face = faces[f];
            let key = face.canonical();
            proof {
                assert(forall|j: int| 0 <= j < 4 ==> face@[j] < 0x1_0000_0000);
                lemma_canon_wf(face@);
                assert(key@ == canon_seq(occs[t].0));
            }
            let k = crate::surface::pack_face(&key);
            table.insert(k, (e, f as u8));
            proof {
                let prefix1 = occs.subrange(0, t + 1);
                assert(prefix1 =~= prefix.push(occs[t]));
                assert(prefix1.drop_last() =~= prefix);
                assert(prefix1.last() == occs[t]);
                assert forall|i: int|
                    0 <= i < t + 1 implies {
                    let t2 = last_face_match(prefix1, canon_seq((#[trigger] occs[i]).0));
                    &&& t2 != -1
                    &&& table@[pack_key(canon_seq(occs[i].0))] == side_entry_of(t2)
                } by {
                    let ki = canon_seq(occs[i].0);
                    assert(ids_in_u32(occs[i].0));
                    lemma_canon_wf(occs[i].0);
                    if ki == key@ {
                        assert(last_face_match(prefix1, ki) == t);
                        assert(pack_key(ki) == k);
                        assert(side_entry_of(t) == (e as usize, f as u8));
                    } else {
                        assert(last_face_match(prefix1, ki) == last_face_match(prefix, ki));
                        if pack_key(ki) == k {
                            lemma_pack_key_injective(ki, key@);
                            assert(false);
                        }
                    }
                }
            }
            f += 1;
        }
        e += 1;
    }
    proof {
        crate::surface::lemma_face_occurrences_len(mesh.elements@);
        assert(occs.subrange(0, 6 * e as int) =~= occs);
    }
    let ghost p_found = (|f2: QuadFace| last_face_match(occs, canon_seq(f2@)) != -1);
    let ghost mk = (|f2: QuadFace| side_entry_of(last_face_match(occs, canon_seq(f2@))));
    let mut out: Vec<(usize, u8)> = Vec::new();
    let nf = surface.faces.len();
    let mut w: usize = 0;
    while w < nf
        invariant
            n == mesh.elements@.len(),
            occs == face_occurrences(mesh.elements@),
            elements_in_u32(mesh.elements@),
            nf == surface.faces@.len(),
            forall|i: int|
                0 <= i < surface.faces@.len() ==> ids_in_u32((#[trigger] surface.faces@[i])@),
            p_found == (|f2: QuadFace| last_face_match(occs, canon_seq(f2@)) != -1),
            mk == (|f2: QuadFace| side_entry_of(last_face_match(occs, canon_seq(f2@)))),
            forall|i: int|
                0 <= i < occs.len() ==> table@.contains_key(
                    pack_key(canon_seq((#[trigger] occs[i]).0)),
                ),
            forall|i: int|
                0 <= i < occs.len() ==> {
                    let t = last_face_match(occs, canon_seq((#[trigger] occs[i]).0));
                    &&& t != -1
                    &&& table@[pack_key(canon_seq(occs[i].0))] == side_entry_of(t)
                },
            forall|k: u128|
                table@.contains_key(k) ==> exists|i: int|
                    0 <= i < occs.len() && pack_key(canon_seq((#[trigger] occs[i]).0)) == k,
            0 <= w <= nf,
            out@ == surface.faces@.subrange(0, w as int).filter(p_found).map_values(mk),
        decreases nf - w,
    {
        let ghost prefix = surface.faces@.subrange(0, w as int);
        let face = surface.faces[w];
        let key = face.canonical();
        proof {
            lemma_canon_wf(face@);
            assert(surface.faces@.subrange(0, w + 1) =~= prefix.push(face));
            lemma_filter_push(prefix, face, p_found);
        }
        let k = crate::surface::pack_face(&key);
        match table.get(&k) {
            Some(v) => {
                let entry = *v;
                out.push(entry);
                proof {
                    crate::surface::lemma_occurrences_wf(mesh.elements@);
                    let i = choose|i: int|
                        0 <= i < occs.len() && pack_key(canon_seq((#[trigger] occs[i]).0)) == k;
                    lemma_canon_wf(occs[i].0);
                    lemma_pack_key_injective(canon_seq(occs[i].0), key@);
                    assert(canon_seq(occs[i].0) == canon_seq(face@));
                    assert(last_face_match(occs, canon_seq(face@)) != -1);
                    assert(p_found(face));
                    assert(entry == mk(face));
                    assert(out@ =~= surface.faces@.subrange(0, w + 1).filter(p_found).map_values(
                        mk,
                    ));
                }
            },
            None => {
                proof {
                    crate::surface::lemma_occurrences_wf(mesh.elements@);
                    assert forall|i: int|
                        0 <= i < occs.len() implies canon_seq((#[trigger] occs[i]).0)
                        != canon_seq(face@) by {
                        if canon_seq(occs[i].0) == canon_seq(face@) {
                            assert(pack_key(canon_seq(occs[i].0)) == k);
                        }
                    }
                    lemma_last_match_none(occs, canon_seq(face@));
                    assert(!p_found(face));
                    assert(out@ =~= surface.faces@.subrange(0, w + 1).filter(p_found).map_values(
                        mk,
                    ));
                }
            },
        }
        w += 1;
    }
    proof {
        assert(surface.faces@.subrange(0, nf as int) =~= surface.faces@);
        assert(p_found =~= (|f2: QuadFace| last_face_match(occs, canon_seq(f2@)) != -1));
        assert(mk =~= (|f2: QuadFace| side_entry_of(last_face_match(occs, canon_seq(f2@)))));
        assert(out@ == sideset_model(mesh.elements@, surface.faces@));
    }
    Ok(out)
}

/// The entry is one contact surface's side set: same name, the side-set
/// model of its faces, and nonempty.
pub open spec fn entry_from_surfaces(
    elems: Seq<HexElement>,
    css: Seq<(String, SurfaceMesh)>,
    entry: (String, Vec<(usize, u8)>),
) -> bool {
    exists|c: int|
        0 <= c < css.len() && entry.0@ == (#[trigger] css[c]).0@ && entry.1@ == sideset_model(
            elems,
            css[c].1.faces@,
        ) && entry.1@.len() > 0
}

/// Some entry at position `lo` or later holds this side set.
pub open spec fn model_shown(
    sets: Seq<(String, Vec<(usize, u8)>)>,
    lo: int,
    model: Seq<(usize, u8)>,
) -> bool {
    exists|j: int| lo <= j < sets.len() && (#[trigger] sets[j]).1@ == model
}

/// Add one side set per contact surface to a mesh, named by the caller
/// (typically `auto_contact_<sanitized patch name>`); a surface whose faces
/// match no element of the original mesh contributes nothing.
#[verifier::rlimit(100)]
pub fn add_contact_sidesets_to_mesh(
    mesh: &mut Mesh,
    contact_surfaces: &Vec<(String, SurfaceMesh)>,
    original_mesh: &Mesh,
) -> (r: Result<(), ContactDetectorError>)
    requires
        elements_in_u32(original_mesh.elements@),
        forall|c: int, i: int|
            0 <= c < contact_surfaces@.len() && 0 <= i < contact_surfaces@[c].1.faces@.len()
                ==> ids_in_u32((#[trigger] contact_surfaces@[c].1.faces@[i])@),
    ensures
        r is Ok,
        final(mesh).node_count == old(mesh).node_count,
        final(mesh).elements == old(mesh).elements,
        final(mesh).element_blocks == old(mesh).element_blocks,
        final(mesh).node_sets == old(mesh).node_sets,
        final(mesh).side_sets@.len() >= old(mesh).side_sets@.len(),
        forall|j: int|
            0 <= j < old(mesh).side_sets@.len() ==> (#[trigger] final(mesh).side_sets@[j]) == old(
                mesh,
            ).side_sets@[j],
        forall|j: int|
            old(mesh).side_sets@.len() <= j < final(mesh).side_sets@.len() ==> entry_from_surfaces(
                original_mesh.elements@,
                contact_surfaces@,
                #[trigger] final(mesh).side_sets@[j],
            ),
        forall|c: int|
            0 <= c < contact_surfaces@.len() && sideset_model(
                original_mesh.elements@,
                (#[trigger] contact_surfaces@[c]).1.faces@,
            ).len() > 0 ==> model_shown(
                final(mesh).side_sets@,
                old(mesh).side_sets@.len() as int,
                sideset_model(original_mesh.elements@, contact_surfaces@[c].1.faces@),
            ),
{
    let ghost base = mesh.side_sets@.len() as int;
    let ghost old_sets = mesh.side_sets@;
    let mut c: usize = 0;
    while c < contact_surfaces.len()
        invariant
            elements_in_u32(original_mesh.elements@),
            forall|c2: int, i: int|
                0 <= c2 < contact_surfaces@.len() && 0 <= i
                    < contact_surfaces@[c2].1.faces@.len() ==> ids_in_u32(
                    (#[trigger] contact_surfaces@[c2].1.faces@[i])@,
                ),
            mesh.node_count == old(mesh).node_count,
            mesh.elements == old(mesh).elements,
            mesh.element_blocks == old(mesh).element_blocks,
            mesh.node_sets == old(mesh).node_sets,
            base == old_sets.len(),
            old_sets == old(mesh).side_sets@,
            mesh.side_sets@.len() >= base,
            forall|j: int| 0 <= j < base ==> (#[trigger] mesh.side_sets@[j]) == old_sets[j],
            0 <= c <= contact_surfaces@.len(),
            forall|j: int|
                base <= j < mesh.side_sets@.len() ==> entry_from_surfaces(
                    original_mesh.elements@,
                    contact_surfaces@,
                    #[trigger] mesh.side_sets@[j],
                ),
            forall|c2: int|
                0 <= c2 < c && sideset_model(
                    original_mesh.elements@,
                    (#[trigger] contact_surfaces@[c2]).1.faces@,
                ).len() > 0 ==> model_shown(
                    mesh.side_sets@,
                    base,
                    sideset_model(original_mesh.elements@, contact_surfaces@[c2].1.faces@),
                ),
        decreases contact_surfaces@.len() - c,
    {
        let name = contact_surfaces[c].0.clone();
        let ss = match surface_to_sideset(&contact_surfaces[c].1, original_mesh) {
            Ok(ss) => ss,
            Err(e) => {
                proof {
                    assert(false);
                }
                return Err(e);
            },
        };
        let ghost pre_sets = mesh.side_sets@;
        if ss.len() > 0 {
            let entry = (name, ss);
            mesh.side_sets.push(entry);
            proof {
                assert(mesh.side_sets@.len() == pre_sets.len() + 1);
                assert(mesh.side_sets@[pre_sets.len() as int] == entry);
                assert(forall|j: int|
                    0 <= j < pre_sets.len() ==> (#[trigger] mesh.side_sets@[j]) == pre_sets[j]);
                assert(entry.1@ == sideset_model(
                    original_mesh.elements@,
                    contact_surfaces@[c as int].1.faces@,
                ));
                assert(entry.0@ == contact_surfaces@[c as int].0@);
                assert(entry_from_surfaces(original_mesh.elements@, contact_surfaces@, entry));
                assert forall|j: int|
                    base <= j < mesh.side_sets@.len() implies entry_from_surfaces(
                    original_mesh.elements@,
                    contact_surfaces@,
                    #[trigger] mesh.side_sets@[j],
                ) by {
                    if j < pre_sets.len() {
                        assert(mesh.side_sets@[j] == pre_sets[j]);
                        assert(entry_from_surfaces(
                            original_mesh.elements@,
                            contact_surfaces@,
                            pre_sets[j],
                        ));
                    } else {
                        assert(mesh.side_sets@[j] == entry);
                    }
                }
            }
        }
        proof {
            assert forall|c2: int|
                0 <= c2 < c + 1 && sideset_model(
                    original_mesh.elements@,
                    (#[trigger] contact_surfaces@[c2]).1.faces@,
                ).len() > 0 implies model_shown(
                mesh.side_sets@,
                base,
                sideset_model(original_mesh.elements@, contact_surfaces@[c2].1.faces@),
            ) by {
                let model = sideset_model(original_mesh.elements@, contact_surfaces@[c2].1.faces@);
                if c2 == c as int {
                    assert(ss@ == model);
                    assert(ss@.len() > 0);
                    let j0 = pre_sets.len() as int;
                    assert(base <= j0 < mesh.side_sets@.len());
                    assert(mesh.side_sets@[j0].1@ == model);
                } else {
                    assert(model_shown(pre_sets, base, model));
                    let j0 = choose|j0: int|
                        base <= j0 < pre_sets.len() && (#[trigger] pre_sets[j0]).1@ == model;
                    assert(mesh.side_sets@[j0].1@ == model);
                }
            }
        }
        c += 1;
    }
    Ok(())
}

} // verus!
