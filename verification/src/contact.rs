//! Contact pair detection: pair each face of surface A with at most one
//! face of surface B under geometric tolerances.
//!
//! The caller owns the floating-point geometry: for each A-face it runs the
//! spatial query over B's face centroids and hands in the candidate list,
//! each candidate carrying the B-face index, an order-preserving score for
//! the absolute signed distance, and the two tolerance verdicts.  The
//! selection logic here — best-candidate choice, tie-breaking, and the
//! partition into paired and unpaired faces — is verified.

use crate::surface::lemma_filter_sorted;
use vstd::prelude::*;

verus! {

/// One candidate match for an A-face, produced by the caller's spatial
/// query in enumeration order.
#[derive(Debug, Clone, Copy, PartialEq, Eq, Structural)]
pub struct CandidateMatch {
    /// Index of the candidate face in surface B.
    pub face_b: usize,
    /// Order-preserving encoding of the absolute signed distance: smaller
    /// score means smaller `|distance|`.
    pub score: u64,
    /// Whether the signed distance lies within `[-max_penetration,
    /// max_gap_distance]`.
    pub in_range: bool,
    /// Whether the normal-misalignment angle is within `max_normal_angle`.
    pub angle_ok: bool,
}

/// A matched pair of faces: the distance, angle, and contact point that
/// accompany it are floating point and stay with the caller, keyed by the
/// two indices.
#[derive(Debug, Clone, Copy, PartialEq, Eq, Structural)]
pub struct ContactPair {
    /// Face index in surface A.
    pub surface_a_face_id: usize,
    /// Face index in surface B.
    pub surface_b_face_id: usize,
}

/// Results of contact detection between two surfaces.
#[derive(Debug, Clone)]
pub struct ContactResults {
    /// Name of surface A.
    pub surface_a_name: String,
    /// Name of surface B.
    pub surface_b_name: String,
    /// The contact pairs, in ascending order of A-face index.
    pub pairs: Vec<ContactPair>,
    /// A-face indices with no acceptable match, ascending.
    pub unpaired_a: Vec<usize>,
    /// B-face indices never selected by any A-face, ascending.
    pub unpaired_b: Vec<usize>,
}

impl ContactResults {
    /// Create empty contact results for a pair of surfaces.
    pub fn new(surface_a_name: String, surface_b_name: String) -> (r: Self)
        ensures
            r.surface_a_name == surface_a_name,
            r.surface_b_name == surface_b_name,
            r.pairs@.len() == 0,
            r.unpaired_a@.len() == 0,
            r.unpaired_b@.len() == 0,
    {
        Self {
            surface_a_name,
            surface_b_name,
            pairs: Vec::new(),
            unpaired_a: Vec::new(),
            unpaired_b: Vec::new(),
        }
    }

    /// Number of contact pairs.
    pub fn num_pairs(&self) -> (r: usize)
        ensures
            r == self.pairs@.len(),
    {
        self.pairs.len()
    }
}

/// A candidate survives both tolerance checks.
pub open spec fn accepted(c: CandidateMatch) -> bool {
    c.in_range && c.angle_ok
}

/// Some candidate in the list survives both tolerance checks.
pub open spec fn has_accepted(cands: Seq<CandidateMatch>) -> bool {
    exists|l: int| 0 <= l < cands.len() && accepted(#[trigger] cands[l])
}

/// Position `j` holds the winning candidate: accepted, with the smallest
/// score, and first among candidates of that score.
pub open spec fn is_best_at(cands: Seq<CandidateMatch>, j: int) -> bool {
    &&& 0 <= j < cands.len()
    &&& accepted(cands[j])
    &&& forall|l: int|
        0 <= l < cands.len() && accepted(#[trigger] cands[l]) ==> cands[j].score <= cands[l].score
    &&& forall|l: int| 0 <= l < j && accepted(#[trigger] cands[l]) ==> cands[j].score < cands[l].score
}

/// At most one position wins.
pub proof fn lemma_best_unique(cands: Seq<CandidateMatch>, j1: int, j2: int)
    requires
        is_best_at(cands, j1),
        is_best_at(cands, j2),
    ensures
        j1 == j2,
{
    if j1 < j2 {
        assert(cands[j2].score < cands[j1].score);
        assert(cands[j1].score <= cands[j2].score);
    }
    if j2 < j1 {
        assert(cands[j1].score < cands[j2].score);
        assert(cands[j2].score <= cands[j1].score);
    }
}

/// The position of the winning candidate; meaningful only when some
/// candidate is accepted.
pub open spec fn best_of(cands: Seq<CandidateMatch>) -> int {
    choose|j: int| is_best_at(cands, j)
}

/// Scan a candidate list for the winner: the accepted candidate with the
/// smallest score, ties broken by enumeration order.
pub fn find_best_match(cands: &Vec<CandidateMatch>) -> (r: Option<usize>)
    ensures
        match r {
            Some(j) => is_best_at(cands@, j as int),
            None => !has_accepted(cands@),
        },
{
    let mut best: Option<usize> = None;
    let mut l: usize = 0;
    while l < cands.len()
        invariant
            0 <= l <= cands@.len(),
            match best {
                Some(j) => {
                    &&& 0 <= (j as int) < l
                    &&& accepted(cands@[j as int])
                    &&& forall|l2: int|
                        0 <= l2 < l && accepted(#[trigger] cands@[l2]) ==> cands@[j as int].score
                            <= cands@[l2].score
                    &&& forall|l2: int|
                        0 <= l2 < j as int && accepted(#[trigger] cands@[l2]) ==> cands@[j
                            as int].score < cands@[l2].score
                },
                None => forall|l2: int| 0 <= l2 < l ==> !accepted(#[trigger] cands@[l2]),
            },
        decreases cands@.len() - l,
    {
        let c = cands[l];
        if c.in_range && c.angle_ok {
            match best {
                Some(j) => {
                    let bc = cands[j];
                    if c.score < bc.score {
                        best = Some(l);
                    }
                },
                None => {
                    best = Some(l);
                },
            }
        }
        l += 1;
    }
    best
}

/// Face index `b` of surface B was selected by some pair.
pub open spec fn b_selected(pairs: Seq<ContactPair>, b: usize) -> bool {
    exists|j: int| 0 <= j < pairs.len() && (#[trigger] pairs[j]).surface_b_face_id == b
}

/// The contact pair emitted for A-face `i` of a candidate table.
pub open spec fn pair_of(candidates: Seq<Vec<CandidateMatch>>, i: usize) -> ContactPair {
    ContactPair {
        surface_a_face_id: i,
        surface_b_face_id: candidates[i as int]@[best_of(candidates[i as int]@)].face_b,
    }
}

/// The pair list of a candidate table: one pair per A-face that has an
/// accepted candidate, in ascending A-face order.
pub open spec fn pairs_model(candidates: Seq<Vec<CandidateMatch>>) -> Seq<ContactPair> {
    Seq::new(candidates.len(), |i: int| i as usize).filter(
        |i: usize| has_accepted(candidates[i as int]@),
    ).map_values(|i: usize| pair_of(candidates, i))
}

/// The A-side unpaired list: the A-faces without an accepted candidate, in
/// ascending order.
pub open spec fn unpaired_a_model(candidates: Seq<Vec<CandidateMatch>>) -> Seq<usize> {
    Seq::new(candidates.len(), |i: int| i as usize).filter(
        |i: usize| !has_accepted(candidates[i as int]@),
    )
}

/// The B-side unpaired list: the B-faces below `num_faces_b` that no pair
/// selects, in ascending order.
pub open spec fn unpaired_b_model(pairs: Seq<ContactPair>, num_faces_b: int) -> Seq<usize> {
    Seq::new(num_faces_b as nat, |b: int| b as usize).filter(|b: usize| !b_selected(pairs, b))
}

/// Selection in a pair list extended by one pair.
proof fn lemma_b_selected_push(pairs: Seq<ContactPair>, x: ContactPair, b: usize)
    ensures
        b_selected(pairs.push(x), b) <==> (b_selected(pairs, b) || x.surface_b_face_id == b),
{
    if b_selected(pairs, b) {
        let j = choose|j: int| 0 <= j < pairs.len() && pairs[j].surface_b_face_id == b;
        assert(pairs.push(x)[j].surface_b_face_id == b);
    }
    if x.surface_b_face_id == b {
        assert(pairs.push(x)[pairs.len() as int].surface_b_face_id == b);
    }
    if b_selected(pairs.push(x), b) {
        let j = choose|j: int|
            0 <= j < pairs.push(x).len() && pairs.push(x)[j].surface_b_face_id == b;
        if j < pairs.len() {
            assert(pairs[j].surface_b_face_id == b);
        }
    }
}

/// Filtering a sequence extended by one element.
proof fn lemma_filter_push<A>(s: Seq<A>, x: A, p: spec_fn(A) -> bool)
    ensures
        s.push(x).filter(p) == (if p(x) {
            s.filter(p).push(x)
        } else {
            s.filter(p)
        }),
{
    reveal(Seq::filter);
    assert(s.push(x).drop_last() =~= s);
    assert(s.push(x).last() == x);
}

/// An index sequence's filter contains `x` exactly when `x` is in range
/// and satisfies the predicate.
proof fn lemma_index_filter_membership(n: int, p: spec_fn(usize) -> bool, x: usize)
    requires
        0 <= n <= usize::MAX,
    ensures
        Seq::new(n as nat, |i: int| i as usize).filter(p).contains(x) <==> ((x as int) < n && p(
            x,
        )),
{
    let s = Seq::new(n as nat, |i: int| i as usize);
    if s.filter(p).contains(x) {
        s.lemma_filter_contains_rev(p, x);
        let q = choose|q: int| 0 <= q < s.len() && s[q] == x;
        assert((x as int) < n);
        let w = choose|w: int| 0 <= w < s.filter(p).len() && s.filter(p)[w] == x;
        s.lemma_filter_pred(p, w);
    }
    if (x as int) < n && p(x) {
        assert(s[x as int] == x);
        s.lemma_filter_contains(p, x as int);
    }
}

/// The matching law: the pair list and the A-side unpaired list together
/// name every A-face exactly once, in ascending order, and the pair list
/// and the B-side unpaired list together name every B-face at least once,
/// with the unpaired B-faces exactly those never selected.
pub proof fn lemma_matching_partition(
    candidates: Seq<Vec<CandidateMatch>>,
    num_faces_b: int,
    pairs: Seq<ContactPair>,
    ua: Seq<usize>,
    ub: Seq<usize>,
)
    requires
        candidates.len() <= usize::MAX,
        0 <= num_faces_b <= usize::MAX,
        pairs == pairs_model(candidates),
        ua == unpaired_a_model(candidates),
        ub == unpaired_b_model(pairs, num_faces_b),
    ensures
        forall|j: int|
            0 <= j < pairs.len() ==> ((#[trigger] pairs[j]).surface_a_face_id as int)
                < candidates.len(),
        forall|i: usize|
            (i as int) < candidates.len() ==> ((exists|j: int|
                0 <= j < pairs.len() && (#[trigger] pairs[j]).surface_a_face_id == i)
                <==> !ua.contains(i)),
        forall|i: usize| #[trigger] ua.contains(i) ==> (i as int) < candidates.len(),
        forall|j1: int, j2: int|
            0 <= j1 < j2 < pairs.len() ==> (#[trigger] pairs[j1]).surface_a_face_id
                < (#[trigger] pairs[j2]).surface_a_face_id,
        forall|x: int, y: int| 0 <= x < y < ua.len() ==> (#[trigger] ua[x]) < (#[trigger] ua[y]),
        forall|b: usize|
            (b as int) < num_faces_b ==> (b_selected(pairs, b) <==> !ub.contains(b)),
        forall|b: usize| #[trigger] ub.contains(b) ==> (b as int) < num_faces_b,
        forall|x: int, y: int| 0 <= x < y < ub.len() ==> (#[trigger] ub[x]) < (#[trigger] ub[y]),
{
    let n = candidates.len() as int;
    let idxseq = Seq::new(n as nat, |i: int| i as usize);
    let p_acc = |i: usize| has_accepted(candidates[i as int]@);
    let p_un = |i: usize| !has_accepted(candidates[i as int]@);
    let mk = |i: usize| pair_of(candidates, i);
    let flt = idxseq.filter(p_acc);
    assert(pairs =~= flt.map_values(mk)) by {
        assert(p_acc =~= (|i: usize| has_accepted(candidates[i as int]@)));
        assert(mk =~= (|i: usize| pair_of(candidates, i)));
    }
    assert(ua =~= idxseq.filter(p_un)) by {
        assert(p_un =~= (|i: usize| !has_accepted(candidates[i as int]@)));
    }
    assert(forall|x: int, y: int| 0 <= x < y < idxseq.len() ==> idxseq[x] < idxseq[y]);
    lemma_filter_sorted(idxseq, p_acc);
    lemma_filter_sorted(idxseq, p_un);
    assert(pairs.len() == flt.len());
    assert forall|j: int|
        0 <= j < pairs.len() implies (#[trigger] pairs[j]).surface_a_face_id == flt[j] && (flt[j]
        as int) < n && p_acc(flt[j]) by {
        assert(pairs[j] == mk(flt[j]));
        assert(flt.contains(flt[j]));
        lemma_index_filter_membership(n, p_acc, flt[j]);
        idxseq.lemma_filter_pred(p_acc, j);
    }
    assert forall|i: usize|
        (i as int) < n implies ((exists|j: int|
        0 <= j < pairs.len() && (#[trigger] pairs[j]).surface_a_face_id == i) <==> !ua.contains(
        i,
    )) by {
        lemma_index_filter_membership(n, p_un, i);
        lemma_index_filter_membership(n, p_acc, i);
        if exists|j: int| 0 <= j < pairs.len() && (#[trigger] pairs[j]).surface_a_face_id == i {
            let j = choose|j: int|
                0 <= j < pairs.len() && (#[trigger] pairs[j]).surface_a_face_id == i;
            assert(p_acc(i));
            assert(!p_un(i));
        }
        if !ua.contains(i) {
            assert(!p_un(i));
            assert(p_acc(i));
            assert(flt.contains(i));
            let j = choose|j: int| 0 <= j < flt.len() && flt[j] == i;
            assert(pairs[j].surface_a_face_id == i);
        }
    }
    assert forall|i: usize| #[trigger] ua.contains(i) implies (i as int) < n by {
        lemma_index_filter_membership(n, p_un, i);
    }
    let bseq = Seq::new(num_faces_b as nat, |b: int| b as usize);
    let p_unb = |b: usize| !b_selected(pairs, b);
    assert(ub =~= bseq.filter(p_unb)) by {
        assert(p_unb =~= (|b: usize| !b_selected(pairs, b)));
    }
    assert(forall|x: int, y: int| 0 <= x < y < bseq.len() ==> bseq[x] < bseq[y]);
    lemma_filter_sorted(bseq, p_unb);
    assert forall|b: usize|
        (b as int) < num_faces_b implies (b_selected(pairs, b) <==> !ub.contains(b)) by {
        lemma_index_filter_membership(num_faces_b, p_unb, b);
    }
    assert forall|b: usize| #[trigger] ub.contains(b) implies (b as int) < num_faces_b by {
        lemma_index_filter_membership(num_faces_b, p_unb, b);
    }
}

/// Matching is deterministic: any two results that meet the contract of
/// [`detect_contact_pairs`] for the same candidate table and B-face count
/// hold the same pairs and the same unpaired lists.
pub proof fn lemma_detection_deterministic(
    candidates: Seq<Vec<CandidateMatch>>,
    num_faces_b: int,
    pairs1: Seq<ContactPair>,
    ua1: Seq<usize>,
    ub1: Seq<usize>,
    pairs2: Seq<ContactPair>,
    ua2: Seq<usize>,
    ub2: Seq<usize>,
)
    requires
        pairs1 == pairs_model(candidates),
        ua1 == unpaired_a_model(candidates),
        ub1 == unpaired_b_model(pairs1, num_faces_b),
        pairs2 == pairs_model(candidates),
        ua2 == unpaired_a_model(candidates),
        ub2 == unpaired_b_model(pairs2, num_faces_b),
    ensures
        pairs1 == pairs2,
        ua1 == ua2,
        ub1 == ub2,
{
}

/// Detect contact pairs between two surfaces from a candidate table.
/// `candidates[i]` lists, in the caller's spatial-query enumeration order,
/// the B-faces near A-face `i` together with their tolerance verdicts and
/// distance scores; `num_faces_b` is the number of faces of surface B.
///
/// For every A-face with at least one accepted candidate the result holds
/// one pair, selecting the accepted candidate with the smallest absolute
/// distance (first seen wins a tie); every other A-face is reported
/// unpaired.  The B-side unpaired list is the ascending complement of the
/// selected B-faces.  Matching cannot fail.
pub fn detect_contact_pairs(
    surface_a_name: &str,
    surface_b_name: &str,
    candidates: &Vec<Vec<CandidateMatch>>,
    num_faces_b: usize,
) -> (r: ContactResults)
    requires
        forall|i: int, j: int|
            0 <= i < candidates@.len() && 0 <= j < candidates@[i]@.len()
                ==> (#[trigger] candidates@[i]@[j]).face_b < num_faces_b,
    ensures
        r.surface_a_name@ == surface_a_name@,
        r.surface_b_name@ == surface_b_name@,
        r.pairs@ == pairs_model(candidates@),
        r.unpaired_a@ == unpaired_a_model(candidates@),
        r.unpaired_b@ == unpaired_b_model(r.pairs@, num_faces_b as int),
        forall|j: int|
            0 <= j < r.pairs@.len() ==> {
                let i = (#[trigger] r.pairs@[j]).surface_a_face_id;
                let cands = candidates@[i as int]@;
                &&& (i as int) < candidates@.len()
                &&& is_best_at(cands, best_of(cands))
                // every emitted pair passed both tolerance checks
                &&& cands[best_of(cands)].in_range
                &&& cands[best_of(cands)].angle_ok
                &&& r.pairs@[j].surface_b_face_id == cands[best_of(cands)].face_b
                &&& r.pairs@[j].surface_b_face_id < num_faces_b
            },
{
    let n_a = candidates.len();
    let ghost idxseq = Seq::new(candidates@.len(), |i: int| i as usize);
    let ghost p_acc = (|i: usize| has_accepted(candidates@[i as int]@));
    let ghost p_un = (|i: usize| !has_accepted(candidates@[i as int]@));
    let ghost mk = (|i: usize| pair_of(candidates@, i));
    let mut pairs: Vec<ContactPair> = Vec::new();
    let mut unpaired_a: Vec<usize> = Vec::new();
    let mut selected: Vec<bool> = Vec::new();
    let mut b0: usize = 0;
    while b0 < num_faces_b
        invariant
            selected@.len() == b0,
            0 <= b0 <= num_faces_b,
            forall|b: int| 0 <= b < b0 ==> !(#[trigger] selected@[b]),
        decreases num_faces_b - b0,
    {
        selected.push(false);
        b0 += 1;
    }
    let mut i: usize = 0;
    while i < n_a
        invariant
            n_a == candidates@.len(),
            forall|i2: int, j: int|
                0 <= i2 < candidates@.len() && 0 <= j < candidates@[i2]@.len()
                    ==> (#[trigger] candidates@[i2]@[j]).face_b < num_faces_b,
            idxseq == Seq::new(candidates@.len(), |i: int| i as usize),
            p_acc == (|i: usize| has_accepted(candidates@[i as int]@)),
            p_un == (|i: usize| !has_accepted(candidates@[i as int]@)),
            mk == (|i: usize| pair_of(candidates@, i)),
            0 <= i <= n_a,
            pairs@ == idxseq.subrange(0, i as int).filter(p_acc).map_values(mk),
            unpaired_a@ == idxseq.subrange(0, i as int).filter(p_un),
            selected@.len() == num_faces_b,
            forall|b: int|
                0 <= b < num_faces_b ==> ((#[trigger] selected@[b]) <==> b_selected(
                    pairs@,
                    b as usize,
                )),
            forall|j: int|
                0 <= j < pairs@.len() ==> {
                    let ia = (#[trigger] pairs@[j]).surface_a_face_id;
                    &&& (ia as int) < candidates@.len()
                    &&& is_best_at(candidates@[ia as int]@, best_of(candidates@[ia as int]@))
                    &&& pairs@[j].surface_b_face_id == candidates@[ia as int]@[best_of(
                        candidates@[ia as int]@,
                    )].face_b
                    &&& pairs@[j].surface_b_face_id < num_faces_b
                },
        decreases n_a - i,
    {
        let ghost prefix = idxseq.subrange(0, i as int);
        let ghost old_pairs = pairs@;
        let cs = &candidates[i];
        let r = find_best_match(cs);
        proof {
            assert(idxseq.subrange(0, i + 1) =~= prefix.push(idxseq[i as int]));
            assert(idxseq[i as int] == i as usize);
            lemma_filter_push(prefix, idxseq[i as int], p_acc);
            lemma_filter_push(prefix, idxseq[i as int], p_un);
        }
        match r {
            Some(j) => {
                let c = cs[j];
                proof {
                    assert(is_best_at(cs@, j as int));
                    assert(is_best_at(cs@, best_of(cs@)));
                    lemma_best_unique(cs@, j as int, best_of(cs@));
                    assert(has_accepted(cs@)) by {
                        assert(accepted(cs@[j as int]));
                    }
                    assert(p_acc(i as usize));
                    assert(pair_of(candidates@, i as usize) == ContactPair {
                        surface_a_face_id: i as usize,
                        surface_b_face_id: c.face_b,
                    });
                }
                let pr = ContactPair { surface_a_face_id: i, surface_b_face_id: c.face_b };
                pairs.push(pr);
                proof {
                    assert(pairs@ =~= old_pairs.push(pr));
                    assert(prefix.push(i as usize).filter(p_acc) =~= prefix.filter(p_acc).push(
                        i as usize,
                    ));
                    assert(pairs@ =~= idxseq.subrange(0, i + 1).filter(p_acc).map_values(mk));
                }
                let ghost pre_selected = selected@;
                selected.set(c.face_b, true);
                proof {
                    assert forall|b: int|
                        0 <= b < num_faces_b implies ((#[trigger] selected@[b]) <==> b_selected(
                        pairs@,
                        b as usize,
                    )) by {
                        lemma_b_selected_push(old_pairs, pr, b as usize);
                        if b != c.face_b as int {
                            assert(selected@[b] == pre_selected[b]);
                        }
                    }
                }
            },
            None => {
                unpaired_a.push(i);
                proof {
                    assert(!has_accepted(cs@));
                    assert(p_un(i as usize));
                    assert(!p_acc(i as usize));
                    assert(unpaired_a@ =~= idxseq.subrange(0, i + 1).filter(p_un));
                    assert(pairs@ =~= idxseq.subrange(0, i + 1).filter(p_acc).map_values(mk));
                }
            },
        }
        i += 1;
    }
    proof {
        assert(idxseq.subrange(0, n_a as int) =~= idxseq);
        assert(p_acc =~= (|i: usize| has_accepted(candidates@[i as int]@)));
        assert(p_un =~= (|i: usize| !has_accepted(candidates@[i as int]@)));
        assert(mk =~= (|i: usize| pair_of(candidates@, i)));
        assert(pairs@ == pairs_model(candidates@));
        assert(unpaired_a@ == unpaired_a_model(candidates@));
    }
    let ghost final_pairs = pairs@;
    let ghost bseq = Seq::new(num_faces_b as nat, |b: int| b as usize);
    let ghost p_unb = (|b: usize| !b_selected(final_pairs, b));
    let mut unpaired_b: Vec<usize> = Vec::new();
    let mut b: usize = 0;
    while b < num_faces_b
        invariant
            final_pairs == pairs@,
            selected@.len() == num_faces_b,
            forall|b2: int|
                0 <= b2 < num_faces_b ==> ((#[trigger] selected@[b2]) <==> b_selected(
                    pairs@,
                    b2 as usize,
                )),
            bseq == Seq::new(num_faces_b as nat, |b: int| b as usize),
            p_unb == (|b: usize| !b_selected(final_pairs, b)),
            0 <= b <= num_faces_b,
            unpaired_b@ == bseq.subrange(0, b as int).filter(p_unb),
        decreases num_faces_b - b,
    {
        let ghost prefix = bseq.subrange(0, b as int);
        proof {
            assert(bseq.subrange(0, b + 1) =~= prefix.push(bseq[b as int]));
            assert(bseq[b as int] == b as usize);
            lemma_filter_push(prefix, bseq[b as int], p_unb);
        }
        if !selected[b] {
            unpaired_b.push(b);
        }
        b += 1;
    }
    proof {
        assert(bseq.subrange(0, num_faces_b as int) =~= bseq);
        assert(p_unb =~= (|b2: usize| !b_selected(final_pairs, b2)));
        assert(unpaired_b@ == unpaired_b_model(final_pairs, num_faces_b as int));
    }
    ContactResults {
        surface_a_name: surface_a_name.to_owned(),
        surface_b_name: surface_b_name.to_owned(),
        pairs,
        unpaired_a,
        unpaired_b,
    }
}

} // verus!
