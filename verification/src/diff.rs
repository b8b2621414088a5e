//! The diff engine: pairs corresponding subtrees of two documents and emits
//! a flat edit script.
//!
//! Matching is driven by accumulated content fingerprints, never by sibling
//! position. At each level, children whose fingerprints occur on both sides
//! are taken as already matched; the rest are paired greedily, candidates
//! with the fewest resulting edits first; whatever stays unpaired becomes a
//! delete on the first document's side or an insert on the second's.
//!
//! The specification functions below pin the executable engine down
//! exactly. Two choices the design leaves open are fixed here and stated in
//! the specification: among children with equal fingerprints the last one in
//! document order stands for the group, and candidate pairs of equal script
//! length are committed in the order the child lists give them.

use vstd::prelude::*;

verus! {

use crate::digest::Digest;
use crate::tree::{
    XNodeId,
    XNodeKindView,
    XNodeView,
    XTree,
    acc_from,
    acc_hash,
    idxs,
    kids,
    lemma_kids_bounds,
    sig_of,
    tree_wf,
    trim_of,
};

/// One edit operation of a script that turns the first document into the
/// second. Identities on the left side (`to`, the deleted node, the updated
/// node) belong to the first document; an inserted child's identity belongs
/// to the second.
#[derive(Debug, Clone, PartialEq, Eq)]
pub enum Edit {
    Insert { child_node: XNodeId, to: XNodeId },
    Delete(XNodeId),
    Update { node_id: XNodeId, old_value: String, new_value: String },
    ReplaceRoot,
}

/// The mathematical value of one edit.
pub ghost enum EditView {
    Insert { child_node: int, to: int },
    Delete { node: int },
    Update { node: int, old_value: Seq<char>, new_value: Seq<char> },
    ReplaceRoot,
}

impl View for Edit {
    type V = EditView;

    open spec fn view(&self) -> EditView {
        match self {
            Edit::Insert { child_node, to } => EditView::Insert {
                child_node: child_node.0 as int,
                to: to.0 as int,
            },
            Edit::Delete(node_id) => EditView::Delete { node: node_id.0 as int },
            Edit::Update { node_id, old_value, new_value } => EditView::Update {
                node: node_id.0 as int,
                old_value: old_value@,
                new_value: new_value@,
            },
            Edit::ReplaceRoot => EditView::ReplaceRoot,
        }
    }
}

/// The mathematical value of an edit script.
pub open spec fn edits_view(s: Seq<Edit>) -> Seq<EditView> {
    s.map_values(|e: Edit| e@)
}

/// A complete, correct hash index for a document: one accumulated
/// fingerprint per node, indexed by node identity.
pub open spec fn ht_matches(ht: Seq<Digest>, t: Seq<XNodeView>) -> bool {
    &&& ht.len() == t.len()
    &&& forall|j: int|
        0 <= j < t.len() ==> (#[trigger] ht[j])@ == acc_hash(t, j) && ht[j].wf()
}

/// Both nodes are value-bearing leaves of one category: both attributes, or
/// both text.
pub open spec fn leaf_pair(a: XNodeKindView, b: XNodeKindView) -> bool {
    (a is Attribute && b is Attribute) || (a is Text && b is Text)
}

/// `d` occurs among the accumulated fingerprints of the listed nodes.
pub open spec fn digest_among(t: Seq<XNodeView>, cs: Seq<int>, d: Seq<u8>) -> bool {
    exists|k: int| 0 <= k < cs.len() && acc_hash(t, cs[k]) == d
}

/// `cs[k]` is the last entry of `cs` carrying its fingerprint: the one that
/// stands for all children with that subtree content.
pub open spec fn last_with_digest(t: Seq<XNodeView>, cs: Seq<int>, k: int) -> bool {
    forall|m: int| k < m < cs.len() ==> acc_hash(t, cs[m]) != acc_hash(t, cs[k])
}

/// The children of one side, `kme[k..]`, that remain for pairing against
/// the other side's children `kot`: one representative per distinct
/// fingerprint (the last in document order), and only fingerprints that do
/// not occur on the other side — those that do are already matched,
/// content-identical pairs needing no edit.
pub open spec fn remaining_from(
    tme: Seq<XNodeView>,
    kme: Seq<int>,
    tot: Seq<XNodeView>,
    kot: Seq<int>,
    k: int,
) -> Seq<int>
    decreases kme.len() - k,
{
    if k < 0 || k >= kme.len() {
        Seq::empty()
    } else {
        let rest = remaining_from(tme, kme, tot, kot, k + 1);
        if last_with_digest(tme, kme, k) && !digest_among(tot, kot, acc_hash(tme, kme[k])) {
            seq![kme[k]] + rest
        } else {
            rest
        }
    }
}

pub open spec fn remaining(
    tme: Seq<XNodeView>,
    kme: Seq<int>,
    tot: Seq<XNodeView>,
    kot: Seq<int>,
) -> Seq<int> {
    remaining_from(tme, kme, tot, kot, 0)
}

/// Every remaining child is one of the listed children.
proof fn lemma_remaining_elems(
    tme: Seq<XNodeView>,
    kme: Seq<int>,
    tot: Seq<XNodeView>,
    kot: Seq<int>,
    k: int,
)
    ensures
        forall|m: int|
            0 <= m < remaining_from(tme, kme, tot, kot, k).len() ==> kme.contains(
                #[trigger] remaining_from(tme, kme, tot, kot, k)[m],
            ),
    decreases kme.len() - k,
{
    if 0 <= k < kme.len() {
        lemma_remaining_elems(tme, kme, tot, kot, k + 1);
        let r = remaining_from(tme, kme, tot, kot, k);
        let rest = remaining_from(tme, kme, tot, kot, k + 1);
        assert forall|m: int| 0 <= m < r.len() implies kme.contains(r[m]) by {
            if last_with_digest(tme, kme, k) && !digest_among(tot, kot, acc_hash(tme, kme[k])) {
                if m == 0 {
                    assert(r[m] == kme[k]);
                } else {
                    assert(r[m] == rest[m - 1]);
                }
            } else {
                assert(r[m] == rest[m]);
            }
        }
    }
}

/// One candidate pairing: a child of each side and the edit script their
/// recursive comparison yields.
pub ghost struct CandView {
    pub c1: int,
    pub c2: int,
    pub script: Seq<EditView>,
}

/// Inserts a candidate into a script-length-sorted sequence, after every
/// candidate whose script is not longer: candidates of equal length keep
/// the order they were generated in.
pub open spec fn insert_by_len(s: Seq<CandView>, x: CandView) -> Seq<CandView>
    decreases s.len(),
{
    if s.len() == 0 {
        seq![x]
    } else if s.last().script.len() <= x.script.len() {
        s.push(x)
    } else {
        insert_by_len(s.drop_last(), x).push(s.last())
    }
}

/// Sorts candidates by ascending script length — fewest edits first, the
/// proxy for the closest match — keeping generation order among equals.
pub open spec fn sort_cands(s: Seq<CandView>) -> Seq<CandView>
    decreases s.len(),
{
    if s.len() == 0 {
        Seq::empty()
    } else {
        insert_by_len(sort_cands(s.drop_last()), s.last())
    }
}

/// Commits candidate pairs greedily, best score first: a pair is accepted
/// only if neither child was claimed by an earlier pair. Yields the
/// concatenated sub-scripts of the accepted pairs and the claimed children
/// of each side.
pub open spec fn greedy(cands: Seq<CandView>, used1: Set<int>, used2: Set<int>) -> (
    Seq<EditView>,
    Set<int>,
    Set<int>,
)
    decreases cands.len(),
{
    if cands.len() == 0 {
        (Seq::empty(), used1, used2)
    } else {
        let c = cands.first();
        if !used1.contains(c.c1) && !used2.contains(c.c2) {
            let rest = greedy(cands.drop_first(), used1.insert(c.c1), used2.insert(c.c2));
            (c.script + rest.0, rest.1, rest.2)
        } else {
            greedy(cands.drop_first(), used1, used2)
        }
    }
}

/// A delete for every child of the first side that no committed pair
/// claimed, in document order.
pub open spec fn spec_deletes(r1: Seq<int>, used1: Set<int>, k: int) -> Seq<EditView>
    decreases r1.len() - k,
{
    if k < 0 || k >= r1.len() {
        Seq::empty()
    } else {
        let rest = spec_deletes(r1, used1, k + 1);
        if !used1.contains(r1[k]) {
            seq![EditView::Delete { node: r1[k] }] + rest
        } else {
            rest
        }
    }
}

/// An insert, under the first side's node being compared, for every child
/// of the second side that no committed pair claimed, in document order.
pub open spec fn spec_inserts(r2: Seq<int>, used2: Set<int>, parent: int, k: int) -> Seq<
    EditView,
>
    decreases r2.len() - k,
{
    if k < 0 || k >= r2.len() {
        Seq::empty()
    } else {
        let rest = spec_inserts(r2, used2, parent, k + 1);
        if !used2.contains(r2[k]) {
            seq![EditView::Insert { child_node: r2[k], to: parent }] + rest
        } else {
            rest
        }
    }
}

/// The script the recursive matcher yields for the pair of subtrees under
/// `n1` in the first document and `n2` in the second.
///
/// Equal accumulated fingerprints mean equal content regardless of internal
/// order: the script is empty. Two value-bearing leaves of one category
/// whose fingerprints differ yield exactly one update — never a delete plus
/// an insert. Otherwise the children are matched without regard to order:
/// fingerprints present on both sides pair off silently; the rest are
/// paired greedily by fewest edits among signature-equal candidates; the
/// unpaired become deletes and inserts.
pub open spec fn spec_diff_node(t1: Seq<XNodeView>, n1: int, t2: Seq<XNodeView>, n2: int) -> Seq<
    EditView,
>
    decreases t1.len() - n1, 3int, 0int, 0int,
        when tree_wf(t1) && tree_wf(t2) && 0 <= n1 < t1.len() && 0 <= n2 < t2.len()
{
    if acc_hash(t1, n1) == acc_hash(t2, n2) {
        Seq::empty()
    } else if leaf_pair(t1[n1].kind, t2[n2].kind) {
        seq![
            EditView::Update {
                node: n1,
                old_value: trim_of(t1[n1].kind.value()),
                new_value: trim_of(t2[n2].kind.value()),
            },
        ]
    } else {
        let k1 = kids(t1, n1);
        let k2 = kids(t2, n2);
        let r1 = remaining(t1, k1, t2, k2);
        let r2 = remaining(t2, k2, t1, k1);
        let picked = greedy(
            sort_cands(spec_cands(t1, n1, r1, 0, t2, r2, 0)),
            Set::empty(),
            Set::empty(),
        );
        picked.0 + spec_deletes(r1, picked.1, 0) + spec_inserts(r2, picked.2, n1, 0)
    }
}

/// All candidate pairings of remaining children, row by row: for each
/// remaining child of side one, every remaining child of side two whose
/// signature matches, with their recursive script.
pub open spec fn spec_cands(
    t1: Seq<XNodeView>,
    n1: int,
    r1: Seq<int>,
    i: int,
    t2: Seq<XNodeView>,
    r2: Seq<int>,
    j: int,
) -> Seq<CandView>
    decreases t1.len() - n1, 2int, r1.len() - i, r2.len() - j,
        when tree_wf(t1) && tree_wf(t2) && 0 <= n1 < t1.len() && 0 <= i <= r1.len() && 0 <= j
            <= r2.len() && (forall|m: int| 0 <= m < r1.len() ==> n1 < #[trigger] r1[m] < t1.len())
            && (forall|m: int| 0 <= m < r2.len() ==> 0 <= #[trigger] r2[m] < t2.len())
{
    if i >= r1.len() {
        Seq::empty()
    } else if j >= r2.len() {
        spec_cands(t1, n1, r1, i + 1, t2, r2, 0)
    } else {
        proof {
            assert(n1 < r1[i] < t1.len());
            assert(0 <= r2[j] < t2.len());
        }
        let head = if sig_of(t1[r1[i]].kind) == sig_of(t2[r2[j]].kind) {
            seq![
                CandView { c1: r1[i], c2: r2[j], script: spec_diff_node(t1, r1[i], t2, r2[j]) },
            ]
        } else {
            Seq::empty()
        };
        head + spec_cands(t1, n1, r1, i, t2, r2, j + 1)
    }
}

/// The whole diff: documents whose roots are structurally incompatible
/// (different signatures) yield exactly the root-replacement sentinel;
/// otherwise the recursive matcher compares the two roots.
pub open spec fn spec_diff(t1: Seq<XNodeView>, t2: Seq<XNodeView>) -> Seq<EditView> {
    if sig_of(t1[0].kind) != sig_of(t2[0].kind) {
        seq![EditView::ReplaceRoot]
    } else {
        spec_diff_node(t1, 0, t2, 0)
    }
}

/// One candidate pairing held by the engine: a child index of each side
/// and the script their recursive comparison yielded.
struct Cand {
    c1: usize,
    c2: usize,
    script: Vec<Edit>,
}

impl View for Cand {
    type V = CandView;

    closed spec fn view(&self) -> CandView {
        CandView { c1: self.c1 as int, c2: self.c2 as int, script: edits_view(self.script@) }
    }
}

/// The mathematical value of a candidate list.
spec fn cands_view(s: Seq<Cand>) -> Seq<CandView> {
    s.map_values(|c: Cand| c@)
}

/// The set of node indices a list of claimed children denotes.
pub open spec fn set_of(v: Seq<usize>) -> Set<int> {
    Set::new(|x: int| exists|m: int| 0 <= m < v.len() && v[m] as int == x)
}

proof fn lemma_set_of_push(v: Seq<usize>, c: usize)
    ensures
        set_of(v.push(c)) == set_of(v).insert(c as int),
{
    assert forall|x: int| set_of(v.push(c)).contains(x) implies set_of(v).insert(
        c as int,
    ).contains(x) by {
        let m = choose|m: int| 0 <= m < v.push(c).len() && v.push(c)[m] as int == x;
        if m < v.len() {
            assert(v[m] as int == x);
        }
    }
    assert forall|x: int| set_of(v).insert(c as int).contains(x) implies set_of(
        v.push(c),
    ).contains(x) by {
        if x == c as int {
            assert(v.push(c)[v.len() as int] as int == x);
        } else {
            let m = choose|m: int| 0 <= m < v.len() && v[m] as int == x;
            assert(v.push(c)[m] as int == x);
        }
    }
    assert(set_of(v.push(c)) =~= set_of(v).insert(c as int));
}

/// Whether the claimed-children list holds `x`.
fn contains_usize(v: &Vec<usize>, x: usize) -> (r: bool)
    ensures
        r == set_of(v@).contains(x as int),
{
    let mut m: usize = 0;
    while m < v.len()
        invariant
            m <= v@.len(),
            forall|q: int| 0 <= q < m ==> v@[q] != x,
        decreases v@.len() - m,
    {
        if v[m] == x {
            proof {
                assert(v@[m as int] as int == x as int);
            }
            return true;
        }
        m += 1;
    }
    proof {
        if set_of(v@).contains(x as int) {
            let q = choose|q: int| 0 <= q < v@.len() && v@[q] as int == x as int;
            assert(v@[q] != x);
        }
    }
    false
}

/// Whether `d` occurs among the accumulated fingerprints of the listed
/// children of the other side, read off its hash index.
fn digest_among_exec(tot: &XTree, htot: &Vec<Digest>, kot: &Vec<usize>, d: &Digest) -> (r: bool)
    requires
        tot.wf(),
        ht_matches(htot@, tot@),
        forall|m: int| 0 <= m < idxs(kot@).len() ==> 0 <= #[trigger] idxs(kot@)[m] < tot@.len(),
    ensures
        r == digest_among(tot@, idxs(kot@), d@),
{
    let mut m: usize = 0;
    while m < kot.len()
        invariant
            tot.wf(),
            ht_matches(htot@, tot@),
            forall|q: int| 0 <= q < idxs(kot@).len() ==> 0 <= #[trigger] idxs(kot@)[q] < tot@.len(),
            m <= kot@.len(),
            forall|q: int| 0 <= q < m ==> acc_hash(tot@, idxs(kot@)[q]) != d@,
        decreases kot@.len() - m,
    {
        let c = kot[m];
        proof {
            assert(idxs(kot@)[m as int] == c as int);
        }
        if htot[c].equals(d) {
            proof {
                assert(acc_hash(tot@, idxs(kot@)[m as int]) == d@);
            }
            return true;
        }
        m += 1;
    }
    false
}

/// Whether `kme[k]` is the last child in the list carrying its
/// fingerprint.
fn is_last_with_digest(tme: &XTree, htme: &Vec<Digest>, kme: &Vec<usize>, k: usize) -> (r: bool)
    requires
        tme.wf(),
        ht_matches(htme@, tme@),
        forall|m: int| 0 <= m < idxs(kme@).len() ==> 0 <= #[trigger] idxs(kme@)[m] < tme@.len(),
        k < kme@.len(),
    ensures
        r == last_with_digest(tme@, idxs(kme@), k as int),
{
    let len = kme.len();
    let ck = kme[k];
    proof {
        assert(idxs(kme@)[k as int] == ck as int);
    }
    let mut m: usize = k + 1;
    while m < kme.len()
        invariant
            tme.wf(),
            ht_matches(htme@, tme@),
            forall|q: int| 0 <= q < idxs(kme@).len() ==> 0 <= #[trigger] idxs(kme@)[q] < tme@.len(),
            k < m,
            m <= kme@.len(),
            ck == kme@[k as int],
            k < kme@.len(),
            forall|q: int|
                k < q < m ==> acc_hash(tme@, idxs(kme@)[q]) != acc_hash(
                    tme@,
                    idxs(kme@)[k as int],
                ),
        decreases kme@.len() - m,
    {
        let cm = kme[m];
        proof {
            assert(idxs(kme@)[m as int] == cm as int);
            assert(idxs(kme@)[k as int] == ck as int);
        }
        if htme[cm].equals(&htme[ck]) {
            proof {
                assert(acc_hash(tme@, idxs(kme@)[m as int]) == acc_hash(
                    tme@,
                    idxs(kme@)[k as int],
                ));
            }
            return false;
        }
        m += 1;
    }
    true
}

/// The children of `kme` that remain for pairing against the other side:
/// one representative per distinct fingerprint, only fingerprints the
/// other side lacks.
fn remaining_children(
    tme: &XTree,
    htme: &Vec<Digest>,
    kme: &Vec<usize>,
    tot: &XTree,
    htot: &Vec<Digest>,
    kot: &Vec<usize>,
) -> (r: Vec<usize>)
    requires
        tme.wf(),
        tot.wf(),
        ht_matches(htme@, tme@),
        ht_matches(htot@, tot@),
        forall|m: int| 0 <= m < idxs(kme@).len() ==> 0 <= #[trigger] idxs(kme@)[m] < tme@.len(),
        forall|m: int| 0 <= m < idxs(kot@).len() ==> 0 <= #[trigger] idxs(kot@)[m] < tot@.len(),
    ensures
        idxs(r@) == remaining(tme@, idxs(kme@), tot@, idxs(kot@)),
{
    let ghost gme = idxs(kme@);
    let ghost got = idxs(kot@);
    let mut r: Vec<usize> = Vec::new();
    proof {
        assert(idxs(r@) + remaining_from(tme@, gme, tot@, got, 0) =~= remaining_from(
            tme@,
            gme,
            tot@,
            got,
            0,
        ));
    }
    let mut k: usize = 0;
    while k < kme.len()
        invariant
            tme.wf(),
            tot.wf(),
            ht_matches(htme@, tme@),
            ht_matches(htot@, tot@),
            gme == idxs(kme@),
            got == idxs(kot@),
            forall|m: int| 0 <= m < gme.len() ==> 0 <= #[trigger] gme[m] < tme@.len(),
            forall|m: int| 0 <= m < got.len() ==> 0 <= #[trigger] got[m] < tot@.len(),
            k <= kme@.len(),
            idxs(r@) + remaining_from(tme@, gme, tot@, got, k as int) == remaining_from(
                tme@,
                gme,
                tot@,
                got,
                0,
            ),
        decreases kme@.len() - k,
    {
        let c = kme[k];
        proof {
            assert(gme[k as int] == c as int);
        }
        let keep_last = is_last_with_digest(tme, htme, kme, k);
        let mut keep = false;
        if keep_last {
            let among = digest_among_exec(tot, htot, kot, &htme[c]);
            keep = !among;
        }
        proof {
            assert(keep == (last_with_digest(tme@, gme, k as int) && !digest_among(
                tot@,
                got,
                acc_hash(tme@, gme[k as int]),
            )));
        }
        let ghost pre = r@;
        let ghost rest = remaining_from(tme@, gme, tot@, got, k as int + 1);
        if keep {
            r.push(c);
            proof {
                assert(remaining_from(tme@, gme, tot@, got, k as int) == seq![gme[k as int]]
                    + rest);
                assert(idxs(r@) =~= idxs(pre).push(c as int));
                assert(idxs(r@) + rest =~= idxs(pre) + remaining_from(
                    tme@,
                    gme,
                    tot@,
                    got,
                    k as int,
                ));
            }
        } else {
            proof {
                assert(remaining_from(tme@, gme, tot@, got, k as int) == rest);
            }
        }
        k += 1;
    }
    proof {
        assert(remaining_from(tme@, gme, tot@, got, k as int) =~= Seq::<int>::empty());
        assert(idxs(r@) + Seq::<int>::empty() =~= idxs(r@));
    }
    r
}

/// Where a candidate of script length `keylen` belongs in the sorted list:
/// after every candidate whose script is not longer.
fn insert_position(sorted: &Vec<Cand>, keylen: usize) -> (p: usize)
    ensures
        p <= sorted@.len(),
        forall|m: int|
            p as int <= m < sorted@.len() ==> cands_view(sorted@)[m].script.len() > keylen as int,
        p > 0 ==> cands_view(sorted@)[p as int - 1].script.len() <= keylen as int,
{
    let mut p: usize = sorted.len();
    while p > 0
        invariant
            p <= sorted@.len(),
            forall|m: int|
                p as int <= m < sorted@.len() ==> cands_view(sorted@)[m].script.len()
                    > keylen as int,
        decreases p,
    {
        if sorted[p - 1].script.len() <= keylen {
            return p;
        }
        proof {
            assert(cands_view(sorted@)[p as int - 1].script.len() == sorted@[p as int
                - 1].script@.len());
        }
        p -= 1;
    }
    p
}

/// Placing a candidate at the position `insert_position` finds is exactly
/// the specification's sorted insertion.
proof fn lemma_insert_by_len_at(s: Seq<CandView>, x: CandView, p: int)
    requires
        0 <= p <= s.len(),
        forall|m: int| p <= m < s.len() ==> (#[trigger] s[m]).script.len() > x.script.len(),
        p > 0 ==> s[p - 1].script.len() <= x.script.len(),
    ensures
        insert_by_len(s, x) == s.insert(p, x),
    decreases s.len(),
{
    if s.len() == 0 {
        assert(insert_by_len(s, x) =~= s.insert(0, x));
    } else if p == s.len() {
        assert(s.last().script.len() <= x.script.len());
        assert(insert_by_len(s, x) == s.push(x));
        assert(s.push(x) =~= s.insert(p, x));
    } else {
        assert(s[s.len() - 1].script.len() > x.script.len());
        lemma_insert_by_len_at(s.drop_last(), x, p);
        assert(insert_by_len(s, x) == insert_by_len(s.drop_last(), x).push(s.last()));
        assert(s.drop_last().insert(p, x).push(s.last()) =~= s.insert(p, x));
    }
}

/// Sorts the candidate list by ascending script length, candidates of
/// equal length keeping their generation order.
fn sort_candidates(cands: Vec<Cand>) -> (r: Vec<Cand>)
    ensures
        cands_view(r@) == sort_cands(cands_view(cands@)),
{
    let ghost orig = cands_view(cands@);
    let mut rest = cands;
    let mut sorted: Vec<Cand> = Vec::new();
    proof {
        assert(cands_view(rest@) =~= orig.skip(0));
        assert(cands_view(sorted@) =~= sort_cands(orig.take(0)));
    }
    while rest.len() > 0
        invariant
            rest@.len() <= orig.len(),
            cands_view(rest@) == orig.skip(orig.len() - rest@.len()),
            cands_view(sorted@) == sort_cands(orig.take(orig.len() - rest@.len())),
        decreases rest@.len(),
    {
        let ghost done = orig.len() - rest@.len();
        let ghost prev = rest@;
        let x = rest.remove(0);
        proof {
            assert(cands_view(prev)[0] == orig.skip(done)[0]);
            assert(x@ == orig[done]);
            assert(rest@ == prev.remove(0));
            assert forall|m: int| 0 <= m < rest@.len() implies cands_view(rest@)[m] == orig.skip(
                done + 1,
            )[m] by {
                assert(rest@[m] == prev[m + 1]);
                assert(cands_view(prev)[m + 1] == orig.skip(done)[m + 1]);
            }
            assert(cands_view(rest@) =~= orig.skip(done + 1));
        }
        let keylen = x.script.len();
        let p = insert_position(&sorted, keylen);
        let ghost presorted = cands_view(sorted@);
        proof {
            assert(x@.script.len() == keylen as int);
        }
        sorted.insert(p, x);
        proof {
            assert(cands_view(sorted@) =~= presorted.insert(p as int, x@));
            lemma_insert_by_len_at(presorted, x@, p as int);
            assert(orig.take(done + 1).drop_last() =~= orig.take(done));
            assert(orig.take(done + 1).last() == orig[done]);
            assert(cands_view(sorted@) == sort_cands(orig.take(done + 1)));
        }
    }
    proof {
        assert(orig.take(orig.len() as int) =~= orig);
    }
    sorted
}

/// Builds the hash index of one document: the mapping from every node's
/// identity to the accumulated content fingerprint of its subtree,
/// including every internal node, so equality of whole subtrees is one
/// digest comparison at any level.
pub fn calculate_hash_table(tree: &XTree) -> (r: Vec<Digest>)
    requires
        tree.wf(),
    ensures
        ht_matches(r@, tree@),
{
    let n = tree.node_count();
    let mut table: Vec<Digest> = Vec::new();
    let mut i: usize = 0;
    while i < n
        invariant
            i <= n,
            table@.len() == i,
        decreases n - i,
    {
        table.push(Digest::zero());
        i += 1;
    }
    let mut i: usize = n;
    while i > 0
        invariant
            tree.wf(),
            n == tree@.len(),
            i <= n,
            table@.len() == n,
            forall|j: int|
                i <= j < n ==> (#[trigger] table@[j])@ == acc_hash(tree@, j) && table@[j].wf(),
        decreases i,
    {
        i -= 1;
        let ks = tree.child_list(i);
        let mut acc = tree.shallow(i);
        let ghost t = tree@;
        let mut k: usize = 0;
        while k < ks.len()
            invariant
                tree.wf(),
                t == tree@,
                n == tree@.len(),
                i < n,
                table@.len() == n,
                idxs(ks@) == kids(t, i as int),
                k <= ks@.len(),
                forall|j: int|
                    i < j < n ==> (#[trigger] table@[j])@ == acc_hash(tree@, j) && table@[j].wf(),
                acc.wf(),
                acc_from(t, i as int, acc@, k as int) == acc_hash(t, i as int),
            decreases ks@.len() - k,
        {
            proof {
                lemma_kids_bounds(t, i as int, k as int);
                assert(idxs(ks@)[k as int] == ks@[k as int] as int);
            }
            let c = ks[k];
            acc = acc.concat(&table[c]);
            k += 1;
        }
        proof {
            assert(acc@ == acc_hash(t, i as int));
        }
        table[i] = acc;
        proof {
            assert(table@[i as int]@ == acc_hash(tree@, i as int));
        }
    }
    table
}

/// The recursive matcher: compares the subtree under `n1` in the first
/// document with the subtree under `n2` in the second and returns exactly
/// the script `spec_diff_node` describes.
fn diff_node(
    t1: &XTree,
    ht1: &Vec<Digest>,
    n1: usize,
    t2: &XTree,
    ht2: &Vec<Digest>,
    n2: usize,
) -> (r: Vec<Edit>)
    requires
        t1.wf(),
        t2.wf(),
        n1 < t1@.len(),
        n2 < t2@.len(),
        ht_matches(ht1@, t1@),
        ht_matches(ht2@, t2@),
    ensures
        edits_view(r@) == spec_diff_node(t1@, n1 as int, t2@, n2 as int),
    decreases t1@.len() - n1,
{
    let ghost g1 = t1@;
    let ghost g2 = t2@;
    // Equal accumulated fingerprints: the subtrees count as equal, whatever
    // their internal order.
    if ht1[n1].equals(&ht2[n2]) {
        let r: Vec<Edit> = Vec::new();
        proof {
            assert(acc_hash(g1, n1 as int) == acc_hash(g2, n2 as int));
            assert(edits_view(r@) =~= spec_diff_node(g1, n1 as int, g2, n2 as int));
        }
        return r;
    }
    // Value-bearing leaves of one category with different fingerprints:
    // report one value change, never a delete plus an insert.
    if (t1.is_attribute(n1) && t2.is_attribute(n2)) || (t1.is_text(n1) && t2.is_text(n2)) {
        let old_value = t1.trimmed_value(n1);
        let new_value = t2.trimmed_value(n2);
        let mut r: Vec<Edit> = Vec::new();
        r.push(Edit::Update { node_id: XNodeId(n1), old_value, new_value });
        proof {
            assert(edits_view(r@) =~= spec_diff_node(g1, n1 as int, g2, n2 as int));
        }
        return r;
    }
    // Child-level unordered matching.
    let k1 = t1.child_list(n1);
    let k2 = t2.child_list(n2);
    proof {
        assert forall|m: int| 0 <= m < idxs(k1@).len() implies 0 <= #[trigger] idxs(k1@)[m]
            < g1.len() by {
            lemma_kids_bounds(g1, n1 as int, m);
        }
        assert forall|m: int| 0 <= m < idxs(k2@).len() implies 0 <= #[trigger] idxs(k2@)[m]
            < g2.len() by {
            lemma_kids_bounds(g2, n2 as int, m);
        }
    }
    let r1 = remaining_children(t1, ht1, &k1, t2, ht2, &k2);
    let r2 = remaining_children(t2, ht2, &k2, t1, ht1, &k1);
    let ghost gr1 = remaining(g1, kids(g1, n1 as int), g2, kids(g2, n2 as int));
    let ghost gr2 = remaining(g2, kids(g2, n2 as int), g1, kids(g1, n1 as int));
    proof {
        lemma_remaining_elems(g1, kids(g1, n1 as int), g2, kids(g2, n2 as int), 0);
        lemma_remaining_elems(g2, kids(g2, n2 as int), g1, kids(g1, n1 as int), 0);
        assert forall|m: int| 0 <= m < gr1.len() implies n1 < #[trigger] gr1[m] < g1.len() by {
            assert(kids(g1, n1 as int).contains(gr1[m]));
            let kk = choose|kk: int|
                0 <= kk < kids(g1, n1 as int).len() && kids(g1, n1 as int)[kk] == gr1[m];
            lemma_kids_bounds(g1, n1 as int, kk);
        }
        assert forall|m: int| 0 <= m < gr2.len() implies 0 <= #[trigger] gr2[m] < g2.len() by {
            assert(kids(g2, n2 as int).contains(gr2[m]));
            let kk = choose|kk: int|
                0 <= kk < kids(g2, n2 as int).len() && kids(g2, n2 as int)[kk] == gr2[m];
            lemma_kids_bounds(g2, n2 as int, kk);
        }
    }
    // Candidate pairs: signature-equal remaining children, with the script
    // their recursive comparison yields.
    let mut cands: Vec<Cand> = Vec::new();
    proof {
        assert(cands_view(cands@) + spec_cands(g1, n1 as int, gr1, 0, g2, gr2, 0)
            =~= spec_cands(g1, n1 as int, gr1, 0, g2, gr2, 0));
    }
    let mut i: usize = 0;
    while i < r1.len()
        invariant
            t1.wf(),
            t2.wf(),
            g1 == t1@,
            g2 == t2@,
            ht_matches(ht1@, g1),
            ht_matches(ht2@, g2),
            n1 < g1.len(),
            n2 < g2.len(),
            idxs(r1@) == gr1,
            idxs(r2@) == gr2,
            forall|m: int| 0 <= m < gr1.len() ==> n1 < #[trigger] gr1[m] < g1.len(),
            forall|m: int| 0 <= m < gr2.len() ==> 0 <= #[trigger] gr2[m] < g2.len(),
            i <= r1@.len(),
            cands_view(cands@) + spec_cands(g1, n1 as int, gr1, i as int, g2, gr2, 0)
                == spec_cands(g1, n1 as int, gr1, 0, g2, gr2, 0),
        decreases r1@.len() - i,
    {
        let mut j: usize = 0;
        while j < r2.len()
            invariant
                t1.wf(),
                t2.wf(),
                g1 == t1@,
                g2 == t2@,
                ht_matches(ht1@, g1),
                ht_matches(ht2@, g2),
                n1 < g1.len(),
                n2 < g2.len(),
                idxs(r1@) == gr1,
                idxs(r2@) == gr2,
                forall|m: int| 0 <= m < gr1.len() ==> n1 < #[trigger] gr1[m] < g1.len(),
                forall|m: int| 0 <= m < gr2.len() ==> 0 <= #[trigger] gr2[m] < g2.len(),
                i < r1@.len(),
                j <= r2@.len(),
                cands_view(cands@) + spec_cands(g1, n1 as int, gr1, i as int, g2, gr2, j as int)
                    == spec_cands(g1, n1 as int, gr1, 0, g2, gr2, 0),
            decreases r2@.len() - j,
        {
            let c1 = r1[i];
            let c2 = r2[j];
            proof {
                assert(gr1[i as int] == c1 as int);
                assert(gr2[j as int] == c2 as int);
            }
            let s1 = t1.signature(c1);
            let s2 = t2.signature(c2);
            let ghost pre = cands_view(cands@);
            if s1 == s2 {
                let d = diff_node(t1, ht1, c1, t2, ht2, c2);
                let ghost cv = CandView {
                    c1: c1 as int,
                    c2: c2 as int,
                    script: spec_diff_node(g1, c1 as int, g2, c2 as int),
                };
                cands.push(Cand { c1, c2, script: d });
                proof {
                    assert(cands_view(cands@) =~= pre.push(cv));
                    assert(spec_cands(g1, n1 as int, gr1, i as int, g2, gr2, j as int)
                        == seq![cv] + spec_cands(g1, n1 as int, gr1, i as int, g2, gr2, j as int
                        + 1));
                    assert(pre.push(cv) + spec_cands(
                        g1,
                        n1 as int,
                        gr1,
                        i as int,
                        g2,
                        gr2,
                        j as int + 1,
                    ) =~= pre + spec_cands(g1, n1 as int, gr1, i as int, g2, gr2, j as int));
                }
            } else {
                proof {
                    assert(spec_cands(g1, n1 as int, gr1, i as int, g2, gr2, j as int)
                        == Seq::<CandView>::empty() + spec_cands(
                        g1,
                        n1 as int,
                        gr1,
                        i as int,
                        g2,
                        gr2,
                        j as int + 1,
                    ));
                    assert(Seq::<CandView>::empty() + spec_cands(
                        g1,
                        n1 as int,
                        gr1,
                        i as int,
                        g2,
                        gr2,
                        j as int + 1,
                    ) =~= spec_cands(g1, n1 as int, gr1, i as int, g2, gr2, j as int + 1));
                }
            }
            j += 1;
        }
        proof {
            assert(spec_cands(g1, n1 as int, gr1, i as int, g2, gr2, r2@.len() as int)
                == spec_cands(g1, n1 as int, gr1, i as int + 1, g2, gr2, 0));
        }
        i += 1;
    }
    proof {
        assert(spec_cands(g1, n1 as int, gr1, gr1.len() as int, g2, gr2, 0)
            =~= Seq::<CandView>::empty());
        assert(cands_view(cands@) + Seq::<CandView>::empty() =~= cands_view(cands@));
    }
    // Best score first; then commit greedily.
    let sorted = sort_candidates(cands);
    let ghost gsorted = sort_cands(spec_cands(g1, n1 as int, gr1, 0, g2, gr2, 0));
    let ghost picked = greedy(gsorted, Set::<int>::empty(), Set::<int>::empty());
    let mut rest = sorted;
    let mut script: Vec<Edit> = Vec::new();
    let mut used1: Vec<usize> = Vec::new();
    let mut used2: Vec<usize> = Vec::new();
    proof {
        assert(set_of(used1@) =~= Set::<int>::empty());
        assert(set_of(used2@) =~= Set::<int>::empty());
        assert(edits_view(script@) + greedy(cands_view(rest@), set_of(used1@), set_of(used2@)).0
            =~= picked.0);
    }
    while rest.len() > 0
        invariant
            picked.0 == edits_view(script@) + greedy(
                cands_view(rest@),
                set_of(used1@),
                set_of(used2@),
            ).0,
            picked.1 == greedy(cands_view(rest@), set_of(used1@), set_of(used2@)).1,
            picked.2 == greedy(cands_view(rest@), set_of(used1@), set_of(used2@)).2,
        decreases rest@.len(),
    {
        let ghost prev = rest@;
        let ghost u1 = set_of(used1@);
        let ghost u2 = set_of(used2@);
        let mut c = rest.remove(0);
        let ghost cv = c@;
        proof {
            assert(cands_view(prev)[0] == cv);
            assert forall|m: int| 0 <= m < rest@.len() implies cands_view(rest@)[m] == cands_view(
                prev,
            ).drop_first()[m] by {
                assert(rest@[m] == prev[m + 1]);
            }
            assert(cands_view(rest@) =~= cands_view(prev).drop_first());
        }
        let in1 = contains_usize(&used1, c.c1);
        let in2 = contains_usize(&used2, c.c2);
        if !in1 && !in2 {
            let ghost prescript = script@;
            let ghost pu1 = used1@;
            let ghost pu2 = used2@;
            script.append(&mut c.script);
            used1.push(c.c1);
            used2.push(c.c2);
            proof {
                lemma_set_of_push(pu1, c.c1);
                lemma_set_of_push(pu2, c.c2);
                assert(edits_view(script@) =~= edits_view(prescript) + cv.script);
                assert(greedy(cands_view(prev), u1, u2).0 == cv.script + greedy(
                    cands_view(rest@),
                    u1.insert(cv.c1),
                    u2.insert(cv.c2),
                ).0);
                assert(greedy(cands_view(prev), u1, u2).1 == greedy(
                    cands_view(rest@),
                    u1.insert(cv.c1),
                    u2.insert(cv.c2),
                ).1);
                assert(greedy(cands_view(prev), u1, u2).2 == greedy(
                    cands_view(rest@),
                    u1.insert(cv.c1),
                    u2.insert(cv.c2),
                ).2);
                assert(edits_view(prescript) + (cv.script + greedy(
                    cands_view(rest@),
                    set_of(used1@),
                    set_of(used2@),
                ).0) =~= (edits_view(prescript) + cv.script) + greedy(
                    cands_view(rest@),
                    set_of(used1@),
                    set_of(used2@),
                ).0);
            }
        } else {
            proof {
                assert(u1.contains(cv.c1) || u2.contains(cv.c2));
                assert(greedy(cands_view(prev), u1, u2).0 == greedy(cands_view(rest@), u1, u2).0);
                assert(greedy(cands_view(prev), u1, u2).1 == greedy(cands_view(rest@), u1, u2).1);
                assert(greedy(cands_view(prev), u1, u2).2 == greedy(cands_view(rest@), u1, u2).2);
            }
        }
    }
    proof {
        assert(cands_view(rest@) =~= Seq::<CandView>::empty());
        assert(picked.0 =~= edits_view(script@));
        assert(picked.1 == set_of(used1@));
        assert(picked.2 == set_of(used2@));
    }
    // Unclaimed children of the first side become deletes.
    let ghost base = picked.0 + spec_deletes(gr1, picked.1, 0);
    let mut k: usize = 0;
    proof {
        assert(edits_view(script@) + spec_deletes(gr1, picked.1, 0) == base);
    }
    while k < r1.len()
        invariant
            idxs(r1@) == gr1,
            set_of(used1@) == picked.1,
            k <= r1@.len(),
            edits_view(script@) + spec_deletes(gr1, picked.1, k as int) == base,
        decreases r1@.len() - k,
    {
        let c = r1[k];
        proof {
            assert(gr1[k as int] == c as int);
        }
        let claimed = contains_usize(&used1, c);
        let ghost pre = script@;
        if !claimed {
            script.push(Edit::Delete(XNodeId(c)));
            proof {
                assert(spec_deletes(gr1, picked.1, k as int) == seq![
                    EditView::Delete { node: gr1[k as int] },
                ] + spec_deletes(gr1, picked.1, k as int + 1));
                assert(edits_view(script@) =~= edits_view(pre).push(
                    EditView::Delete { node: c as int },
                ));
                assert(edits_view(script@) + spec_deletes(gr1, picked.1, k as int + 1)
                    =~= edits_view(pre) + spec_deletes(gr1, picked.1, k as int));
            }
        } else {
            proof {
                assert(spec_deletes(gr1, picked.1, k as int) == spec_deletes(
                    gr1,
                    picked.1,
                    k as int + 1,
                ));
            }
        }
        k += 1;
    }
    proof {
        assert(spec_deletes(gr1, picked.1, r1@.len() as int) =~= Seq::<EditView>::empty());
        assert(edits_view(script@) + Seq::<EditView>::empty() =~= edits_view(script@));
        assert(edits_view(script@) == base);
    }
    // Unclaimed children of the second side become inserts under `n1`.
    let ghost whole = base + spec_inserts(gr2, picked.2, n1 as int, 0);
    let mut k: usize = 0;
    proof {
        assert(edits_view(script@) + spec_inserts(gr2, picked.2, n1 as int, 0) == whole);
    }
    while k < r2.len()
        invariant
            idxs(r2@) == gr2,
            set_of(used2@) == picked.2,
            k <= r2@.len(),
            edits_view(script@) + spec_inserts(gr2, picked.2, n1 as int, k as int) == whole,
        decreases r2@.len() - k,
    {
        let c = r2[k];
        proof {
            assert(gr2[k as int] == c as int);
        }
        let claimed = contains_usize(&used2, c);
        let ghost pre = script@;
        if !claimed {
            script.push(Edit::Insert { child_node: XNodeId(c), to: XNodeId(n1) });
            proof {
                assert(spec_inserts(gr2, picked.2, n1 as int, k as int) == seq![
                    EditView::Insert { child_node: gr2[k as int], to: n1 as int },
                ] + spec_inserts(gr2, picked.2, n1 as int, k as int + 1));
                assert(edits_view(script@) =~= edits_view(pre).push(
                    EditView::Insert { child_node: c as int, to: n1 as int },
                ));
                assert(edits_view(script@) + spec_inserts(gr2, picked.2, n1 as int, k as int + 1)
                    =~= edits_view(pre) + spec_inserts(gr2, picked.2, n1 as int, k as int));
            }
        } else {
            proof {
                assert(spec_inserts(gr2, picked.2, n1 as int, k as int) == spec_inserts(
                    gr2,
                    picked.2,
                    n1 as int,
                    k as int + 1,
                ));
            }
        }
        k += 1;
    }
    proof {
        assert(spec_inserts(gr2, picked.2, n1 as int, r2@.len() as int)
            =~= Seq::<EditView>::empty());
        assert(edits_view(script@) + Seq::<EditView>::empty() =~= edits_view(script@));
        assert(edits_view(script@) == whole);
        assert(spec_diff_node(g1, n1 as int, g2, n2 as int) == picked.0 + spec_deletes(
            gr1,
            picked.1,
            0,
        ) + spec_inserts(gr2, picked.2, n1 as int, 0));
    }
    script
}

/// Computes the edit script that turns `tree1` into `tree2`: the minimal
/// operations the matching heuristic finds, indifferent to sibling order.
/// Documents whose roots have different signatures are incompatible at the
/// top: the script is exactly the root-replacement sentinel.
pub fn diff(tree1: &XTree, tree2: &XTree) -> (r: Vec<Edit>)
    requires
        tree1.wf(),
        tree2.wf(),
    ensures
        edits_view(r@) == spec_diff(tree1@, tree2@),
{
    let s1 = tree1.signature(0);
    let s2 = tree2.signature(0);
    if s1 == s2 {
        let ht1 = calculate_hash_table(tree1);
        let ht2 = calculate_hash_table(tree2);
        diff_node(tree1, &ht1, 0, tree2, &ht2, 0)
    } else {
        let mut r: Vec<Edit> = Vec::new();
        r.push(Edit::ReplaceRoot);
        proof {
            assert(edits_view(r@) =~= seq![EditView::ReplaceRoot]);
        }
        r
    }
}

} // verus!
