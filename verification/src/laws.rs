//! The laws the diff engine obeys, stated and proved over the same
//! specification functions its contracts use.

use vstd::prelude::*;

verus! {

use crate::diff::{
    digest_among,
    greedy,
    insert_by_len,
    last_with_digest,
    leaf_pair,
    remaining,
    remaining_from,
    sort_cands,
    spec_cands,
    spec_deletes,
    spec_diff,
    spec_diff_node,
    spec_inserts,
    CandView,
    EditView,
};
use crate::digest::{
    all_width,
    digest_sum,
    lemma_digest_sum_permuted,
    lemma_digest_sum_remove,
    lemma_digest_sum_width,
    DIGEST_WIDTH,
};
use crate::tree::{
    acc_from,
    acc_hash,
    digests_of,
    kids,
    lemma_acc_hash_sum,
    lemma_acc_hash_width,
    lemma_kids_bounds,
    node_wf,
    shallow_hash,
    sig_of,
    tree_wf,
    trim_of,
    XNodeKindView,
    XNodeView,
};

/// Identity: comparing any well-formed document with itself yields the
/// empty script.
pub proof fn lemma_diff_identity(t: Seq<XNodeView>)
    requires
        tree_wf(t),
    ensures
        spec_diff(t, t) == Seq::<EditView>::empty(),
{
    assert(spec_diff_node(t, 0, t, 0) == Seq::<EditView>::empty());
}

/// Determinism: the engine's result is a function of the two documents
/// alone, so two runs on the same documents yield the same script — in
/// particular the same multiset of edits, the equality the output is read
/// under.
pub proof fn lemma_diff_deterministic(
    t1: Seq<XNodeView>,
    t2: Seq<XNodeView>,
    r1: Seq<EditView>,
    r2: Seq<EditView>,
)
    requires
        r1 == spec_diff(t1, t2),
        r2 == spec_diff(t1, t2),
    ensures
        r1 == r2,
        r1.to_multiset() == r2.to_multiset(),
{
}

/// Root mismatch: documents whose roots carry different signatures yield
/// exactly the root-replacement sentinel and nothing else.
pub proof fn lemma_diff_root_mismatch(t1: Seq<XNodeView>, t2: Seq<XNodeView>)
    requires
        sig_of(t1[0].kind) != sig_of(t2[0].kind),
    ensures
        spec_diff(t1, t2) == seq![EditView::ReplaceRoot],
{
}

/// The second subtree is the first with siblings possibly reordered, at
/// any depth: node content is unchanged and some permutation of the child
/// lists relates the child subtrees pairwise. The bounds in the guard
/// always hold of well-formed documents.
pub open spec fn sibling_permuted(t1: Seq<XNodeView>, n1: int, t2: Seq<XNodeView>, n2: int) -> bool
    decreases t1.len() - n1,
        when tree_wf(t1) && tree_wf(t2) && 0 <= n1 < t1.len() && 0 <= n2 < t2.len()
{
    &&& t1[n1].kind == t2[n2].kind
    &&& kids(t1, n1).len() == kids(t2, n2).len()
    &&& exists|p: Seq<int>|
    #![trigger p.to_multiset()]
    {
        &&& p.to_multiset() == kids(t2, n2).to_multiset()
        &&& p.len() == kids(t1, n1).len()
        &&& forall|m: int|
            0 <= m < p.len() && n1 < kids(t1, n1)[m] < t1.len() && 0 <= p[m] < t2.len()
                ==> sibling_permuted(t1, #[trigger] kids(t1, n1)[m], t2, p[m])
    }
}

/// The sibling-permutation relation relates every well-formed document to
/// itself, through the identity permutation of each child list — the
/// relation is never vacuous.
pub proof fn lemma_sibling_permuted_reflexive(t: Seq<XNodeView>, n: int)
    requires
        tree_wf(t),
        0 <= n < t.len(),
    ensures
        sibling_permuted(t, n, t, n),
    decreases t.len() - n,
{
    let k = kids(t, n);
    assert forall|m: int|
        0 <= m < k.len() && n < kids(t, n)[m] < t.len() && 0 <= k[m] < t.len() implies sibling_permuted(
        t,
        #[trigger] kids(t, n)[m],
        t,
        k[m],
    ) by {
        lemma_sibling_permuted_reflexive(t, k[m]);
    }
    assert(k.to_multiset() == kids(t, n).to_multiset());
}

/// Mapping a multiset-equal pair of index lists to their accumulated
/// fingerprints gives multiset-equal fingerprint lists.
proof fn lemma_digests_multiset(t: Seq<XNodeView>, a: Seq<int>, b: Seq<int>)
    requires
        a.to_multiset() == b.to_multiset(),
    ensures
        digests_of(t, a).to_multiset() == digests_of(t, b).to_multiset(),
    decreases a.len(),
{
    broadcast use vstd::seq_lib::group_to_multiset_ensures;
    broadcast use vstd::multiset::group_multiset_axioms;

    if a.len() == 0 {
        assert(a.to_multiset().len() == 0);
        assert(b.to_multiset().len() == b.len());
        assert(digests_of(t, a) =~= Seq::<Seq<u8>>::empty());
        assert(digests_of(t, b) =~= Seq::<Seq<u8>>::empty());
        assert(digests_of(t, a).to_multiset() =~= digests_of(t, b).to_multiset());
    } else {
        let x = a[0];
        assert(a.contains(x));
        assert(b.to_multiset().count(x) > 0);
        assert(b.contains(x));
        let j = choose|j: int| 0 <= j < b.len() && b[j] == x;
        assert(a.remove(0) =~= a.drop_first());
        assert(a.drop_first().to_multiset() == a.to_multiset().remove(x));
        assert(b.remove(j).to_multiset() == b.to_multiset().remove(x));
        lemma_digests_multiset(t, a.drop_first(), b.remove(j));
        let da = digests_of(t, a);
        let db = digests_of(t, b);
        let dx = acc_hash(t, x);
        assert(da.remove(0) =~= digests_of(t, a.drop_first()));
        assert(db.remove(j) =~= digests_of(t, b.remove(j)));
        assert(da.remove(0).to_multiset() == da.to_multiset().remove(da[0]));
        assert(db.remove(j).to_multiset() == db.to_multiset().remove(db[j]));
        assert(da[0] == dx);
        assert(db[j] == dx);
        assert(da.contains(da[0]));
        assert(da.to_multiset().count(dx) > 0);
        assert(db.contains(db[j]));
        assert(db.to_multiset().count(dx) > 0);
        assert forall|y: Seq<u8>| da.to_multiset().count(y) == db.to_multiset().count(y) by {
            assert(da.to_multiset().remove(dx).count(y) == db.to_multiset().remove(dx).count(y));
        }
        assert(da.to_multiset() =~= db.to_multiset());
    }
}

/// A sibling permutation never changes the accumulated fingerprint: the
/// fingerprint is a function of content and of the multiset of child
/// fingerprints alone.
pub proof fn lemma_permuted_acc(t1: Seq<XNodeView>, n1: int, t2: Seq<XNodeView>, n2: int)
    requires
        tree_wf(t1),
        tree_wf(t2),
        0 <= n1 < t1.len(),
        0 <= n2 < t2.len(),
        sibling_permuted(t1, n1, t2, n2),
    ensures
        acc_hash(t1, n1) == acc_hash(t2, n2),
    decreases t1.len() - n1,
{
    broadcast use vstd::seq_lib::group_to_multiset_ensures;

    let k1 = kids(t1, n1);
    let k2 = kids(t2, n2);
    let p = choose|p: Seq<int>|
        #![trigger p.to_multiset()]
        {
            &&& p.to_multiset() == k2.to_multiset()
            &&& p.len() == k1.len()
            &&& forall|m: int|
                0 <= m < p.len() && n1 < k1[m] < t1.len() && 0 <= p[m] < t2.len()
                    ==> sibling_permuted(t1, #[trigger] k1[m], t2, p[m])
        };
    assert forall|m: int| 0 <= m < k1.len() implies acc_hash(t1, k1[m]) == acc_hash(
        t2,
        p[m],
    ) by {
        lemma_kids_bounds(t1, n1, m);
        assert(p.contains(p[m]));
        assert(k2.to_multiset().count(p[m]) > 0);
        assert(k2.contains(p[m]));
        let mm = choose|mm: int| 0 <= mm < k2.len() && k2[mm] == p[m];
        lemma_kids_bounds(t2, n2, mm);
        assert(sibling_permuted(t1, k1[m], t2, p[m]));
        lemma_permuted_acc(t1, k1[m], t2, p[m]);
    }
    assert(digests_of(t1, k1) =~= digests_of(t2, p));
    lemma_digests_multiset(t2, p, k2);
    assert forall|m: int| 0 <= m < digests_of(t2, p).len() implies (#[trigger] digests_of(
        t2,
        p,
    )[m]).len() == DIGEST_WIDTH by {
        assert(p.contains(p[m]));
        assert(k2.to_multiset().count(p[m]) > 0);
        assert(k2.contains(p[m]));
        let mm = choose|mm: int| 0 <= mm < k2.len() && k2[mm] == p[m];
        lemma_kids_bounds(t2, n2, mm);
        lemma_acc_hash_width(t2, p[m]);
    }
    lemma_digest_sum_permuted(digests_of(t2, p), digests_of(t2, k2));
    lemma_acc_hash_sum(t1, n1);
    lemma_acc_hash_sum(t2, n2);
}

/// Order-insensitivity: permuting the sibling order of any elements'
/// children, without altering content, yields an empty diff against the
/// original — the property that distinguishes this engine from a
/// positional diff.
pub proof fn lemma_diff_order_insensitive(t1: Seq<XNodeView>, t2: Seq<XNodeView>)
    requires
        tree_wf(t1),
        tree_wf(t2),
        sibling_permuted(t1, 0, t2, 0),
    ensures
        spec_diff(t1, t2) == Seq::<EditView>::empty(),
{
    lemma_permuted_acc(t1, 0, t2, 0);
    assert(t1[0].kind == t2[0].kind);
    assert(sig_of(t1[0].kind) == sig_of(t2[0].kind));
    assert(spec_diff_node(t1, 0, t2, 0) == Seq::<EditView>::empty());
}

/// `x` lies in the subtree rooted at `r`, the root included. The bounds in
/// the guard always hold of well-formed documents.
pub open spec fn in_subtree(t: Seq<XNodeView>, r: int, x: int) -> bool
    decreases t.len() - r,
        when tree_wf(t) && 0 <= r < t.len()
{
    r == x || exists|k: int|
        #![trigger kids(t, r)[k]]
        0 <= k < kids(t, r).len() && r < kids(t, r)[k] < t.len() && in_subtree(
            t,
            kids(t, r)[k],
            x,
        )
}

/// `c` is `l` itself or one of its ancestors through the parent links.
pub open spec fn on_chain(t: Seq<XNodeView>, c: int, l: int) -> bool
    decreases l,
        when tree_wf(t) && 0 <= l < t.len()
{
    c == l || (l != 0 && {
        proof {
            assert(node_wf(t, l));
        }
        match t[l].parent {
            Some(p) => on_chain(t, c, p),
            None => false,
        }
    })
}

/// A path into a subtree other than at its root enters through the
/// target's parent.
proof fn lemma_subtree_step(t: Seq<XNodeView>, c: int, l: int)
    requires
        tree_wf(t),
        0 <= c < t.len(),
        0 <= l < t.len(),
        in_subtree(t, c, l),
        c != l,
    ensures
        l != 0,
        match t[l].parent {
            Some(p) => in_subtree(t, c, p),
            None => false,
        },
    decreases t.len() - c,
{
    let k = choose|k: int|
        0 <= k < kids(t, c).len() && c < kids(t, c)[k] < t.len() && in_subtree(
            t,
            #[trigger] kids(t, c)[k],
            l,
        );
    let cc = kids(t, c)[k];
    lemma_kids_bounds(t, c, k);
    assert(node_wf(t, cc));
    if cc == l {
        assert(t[l].parent == Some(c));
        assert(in_subtree(t, c, c));
    } else {
        lemma_subtree_step(t, cc, l);
        match t[l].parent {
            Some(p) => {
                assert(in_subtree(t, cc, p));
                assert(in_subtree(t, c, p));
            },
            None => {
                assert(false);
            },
        }
    }
}

/// Whatever reaches `l` downward through child lists stands on `l`'s
/// ancestor chain.
proof fn lemma_subtree_on_chain(t: Seq<XNodeView>, c: int, l: int)
    requires
        tree_wf(t),
        0 <= c < t.len(),
        0 <= l < t.len(),
        in_subtree(t, c, l),
    ensures
        on_chain(t, c, l),
    decreases l,
{
    if c != l {
        lemma_subtree_step(t, c, l);
        assert(node_wf(t, l));
        match t[l].parent {
            Some(p) => {
                lemma_subtree_on_chain(t, c, p);
            },
            None => {
                assert(false);
            },
        }
    }
}

/// An ancestor never carries a higher index than its descendant.
proof fn lemma_on_chain_le(t: Seq<XNodeView>, c: int, l: int)
    requires
        tree_wf(t),
        0 <= l < t.len(),
        on_chain(t, c, l),
    ensures
        c <= l,
    decreases l,
{
    if c != l {
        assert(node_wf(t, l));
        match t[l].parent {
            Some(p) => {
                lemma_on_chain_le(t, c, p);
            },
            None => {
                assert(false);
            },
        }
    }
}

/// The ancestor chain is a line: two nodes on it that share a parent are
/// one node.
proof fn lemma_chain_siblings(t: Seq<XNodeView>, x: int, y: int, l: int)
    requires
        tree_wf(t),
        0 <= x < t.len(),
        0 <= y < t.len(),
        0 <= l < t.len(),
        on_chain(t, x, l),
        on_chain(t, y, l),
        t[x].parent == t[y].parent,
    ensures
        x == y,
    decreases l,
{
    assert(node_wf(t, l));
    if x == l {
        if y != l {
            assert(node_wf(t, y));
            match t[l].parent {
                Some(pl) => {
                    assert(on_chain(t, y, pl));
                    lemma_on_chain_le(t, y, pl);
                    assert(t[y].parent == Some(pl));
                    assert(pl < y);
                },
                None => {
                    assert(l == 0);
                    assert(on_chain(t, y, 0));
                    assert(y == 0);
                },
            }
        }
    } else if y == l {
        assert(node_wf(t, x));
        match t[l].parent {
            Some(pl) => {
                assert(on_chain(t, x, pl));
                lemma_on_chain_le(t, x, pl);
                assert(t[x].parent == Some(pl));
                assert(pl < x);
            },
            None => {
                assert(l == 0);
                assert(on_chain(t, x, 0));
                assert(x == 0);
            },
        }
    } else {
        match t[l].parent {
            Some(pl) => {
                lemma_chain_siblings(t, x, y, pl);
            },
            None => {
                assert(l == 0);
                assert(x == 0 && y == 0);
            },
        }
    }
}

/// The chain grows upward through a parent link.
proof fn lemma_on_chain_parent(t: Seq<XNodeView>, c: int, cc: int, l: int)
    requires
        tree_wf(t),
        0 <= c < t.len(),
        0 <= cc < t.len(),
        0 <= l < t.len(),
        on_chain(t, cc, l),
        t[cc].parent == Some(c),
    ensures
        on_chain(t, c, l),
    decreases l,
{
    if cc == l {
        assert(node_wf(t, l));
        assert(l != 0);
        assert(on_chain(t, c, c));
    } else {
        assert(node_wf(t, l));
        match t[l].parent {
            Some(p) => {
                lemma_on_chain_parent(t, c, cc, p);
            },
            None => {
                assert(false);
            },
        }
    }
}

/// Both kinds are value-bearing leaves of one category carrying the same
/// name; only their values may differ.
pub open spec fn value_leaf_alike(a: XNodeKindView, b: XNodeKindView) -> bool {
    match (a, b) {
        (
            XNodeKindView::Attribute { namespace: ns1, name: n1, value: _ },
            XNodeKindView::Attribute { namespace: ns2, name: n2, value: _ },
        ) => ns1 == ns2 && n1 == n2,
        (XNodeKindView::Text { value: _ }, XNodeKindView::Text { value: _ }) => true,
        _ => false,
    }
}

/// The two documents are identical — same arena, same links — except that
/// the value-bearing leaf `l` may carry another value.
pub open spec fn differs_only_at(t1: Seq<XNodeView>, t2: Seq<XNodeView>, l: int) -> bool {
    &&& t1.len() == t2.len()
    &&& 0 < l < t1.len()
    &&& (forall|j: int| 0 <= j < t1.len() && j != l ==> t1[j] == t2[j])
    &&& t1[l].parent == t2[l].parent
    &&& t1[l].children == t2[l].children
    &&& t1[l].attrs == t2[l].attrs
    &&& value_leaf_alike(t1[l].kind, t2[l].kind)
}

/// No child list names one node twice.
pub open spec fn distinct_kids(t: Seq<XNodeView>) -> bool {
    forall|i: int, a: int, c: int|
        #![trigger kids(t, i)[a], kids(t, i)[c]]
        0 <= i < t.len() && 0 <= a < c < kids(t, i).len() ==> kids(t, i)[a] != kids(t, i)[c]
}

/// Well-formed documents list every child once: real children and
/// attribute pseudo-children each run in increasing order, and the two
/// groups hold nodes of different kinds.
pub proof fn lemma_wf_distinct_kids(t: Seq<XNodeView>)
    requires
        tree_wf(t),
    ensures
        distinct_kids(t),
{
    assert forall|i: int, a: int, c: int|
        #![trigger kids(t, i)[a], kids(t, i)[c]]
        0 <= i < t.len() && 0 <= a < c < kids(t, i).len() implies kids(t, i)[a] != kids(
        t,
        i,
    )[c] by {
        assert(node_wf(t, i));
        let ch = t[i].children;
        let at = t[i].attrs;
        if c < ch.len() {
            assert(ch[a] < ch[c]);
            assert(kids(t, i)[a] == ch[a] && kids(t, i)[c] == ch[c]);
        } else if a >= ch.len() {
            assert(at[a - ch.len()] < at[c - ch.len()]);
            assert(kids(t, i)[a] == at[a - ch.len()] && kids(t, i)[c] == at[c - ch.len()]);
        } else {
            assert(kids(t, i)[a] == ch[a] && kids(t, i)[c] == at[c - ch.len()]);
            assert(!(t[ch[a]].kind is Attribute));
            assert(t[at[c - ch.len()]].kind is Attribute);
        }
    }
}

/// A subtree that does not hold the changed leaf keeps its accumulated
/// fingerprint.
proof fn lemma_untouched_acc(t1: Seq<XNodeView>, t2: Seq<XNodeView>, l: int, j: int)
    requires
        tree_wf(t1),
        tree_wf(t2),
        differs_only_at(t1, t2, l),
        0 <= j < t1.len(),
        !in_subtree(t1, j, l),
    ensures
        acc_hash(t1, j) == acc_hash(t2, j),
    decreases t1.len() - j,
{
    assert(in_subtree(t1, j, j));
    assert(j != l);
    assert(t1[j] == t2[j]);
    let k = kids(t1, j);
    assert(kids(t2, j) == k);
    assert forall|q: int| 0 <= q < k.len() implies acc_hash(t1, k[q]) == acc_hash(t2, k[q]) by {
        lemma_kids_bounds(t1, j, q);
        if in_subtree(t1, k[q], l) {
            assert(in_subtree(t1, j, l));
            assert(false);
        }
        lemma_untouched_acc(t1, t2, l, k[q]);
    }
    assert(digests_of(t1, k) =~= digests_of(t2, k));
    lemma_acc_hash_sum(t1, j);
    lemma_acc_hash_sum(t2, j);
}

/// Adding one summand to two different bytes keeps the sums, modulo 256,
/// different.
proof fn lemma_mod_add_distinct(x: int, y: int, r: int)
    requires
        0 <= x < 256,
        0 <= y < 256,
        0 <= r < 256,
        x != y,
    ensures
        (x + r) % 256 != (y + r) % 256,
{
    assert((x + r) % 256 == if x + r < 256 {
        x + r
    } else {
        x + r - 256
    });
    assert((y + r) % 256 == if y + r < 256 {
        y + r
    } else {
        y + r - 256
    });
}

/// When every child but one carries the same fingerprint on both sides,
/// and that one child's fingerprint collides with nothing — not its other
/// side, not its siblings on either side — exactly that child remains for
/// pairing.
proof fn lemma_remaining_single(
    tme: Seq<XNodeView>,
    tot: Seq<XNodeView>,
    k: Seq<int>,
    kp: int,
    j: int,
)
    requires
        0 <= kp < k.len(),
        forall|q: int| 0 <= q < k.len() && q != kp ==> #[trigger] k[q] != k[kp],
        forall|q: int|
            0 <= q < k.len() && q != kp ==> acc_hash(tme, #[trigger] k[q]) == acc_hash(tot, k[q])
                && acc_hash(tme, k[q]) != acc_hash(tme, k[kp]),
        acc_hash(tme, k[kp]) != acc_hash(tot, k[kp]),
        0 <= j <= k.len(),
    ensures
        remaining_from(tme, k, tot, k, j) == if j <= kp {
            seq![k[kp]]
        } else {
            Seq::<int>::empty()
        },
    decreases k.len() - j,
{
    if j < k.len() {
        lemma_remaining_single(tme, tot, k, kp, j + 1);
        if j == kp {
            assert forall|m: int| 0 <= m < k.len() implies acc_hash(tot, k[m]) != acc_hash(
                tme,
                k[kp],
            ) by {
                if m != kp {
                    assert(acc_hash(tot, k[m]) == acc_hash(tme, k[m]));
                }
            }
            assert(!digest_among(tot, k, acc_hash(tme, k[j])));
            assert(last_with_digest(tme, k, j));
            assert(remaining_from(tme, k, tot, k, j) == seq![k[j]] + remaining_from(
                tme,
                k,
                tot,
                k,
                j + 1,
            ));
            assert(seq![k[kp]] + Seq::<int>::empty() =~= seq![k[kp]]);
        } else {
            assert(acc_hash(tot, k[j]) == acc_hash(tme, k[j]));
            assert(digest_among(tot, k, acc_hash(tme, k[j])));
            assert(remaining_from(tme, k, tot, k, j) == remaining_from(tme, k, tot, k, j + 1));
        }
    }
}

/// `path` runs from the root to `l` along child links.
pub open spec fn path_to(t: Seq<XNodeView>, path: Seq<int>, l: int) -> bool {
    &&& path.len() >= 1
    &&& path[0] == 0
    &&& path[path.len() - 1] == l
    &&& (forall|i: int| 0 <= i < path.len() ==> 0 <= #[trigger] path[i] < t.len())
    &&& (forall|i: int|
        0 <= i < path.len() - 1 ==> kids(t, #[trigger] path[i]).contains(path[i + 1]))
}

/// Fingerprints never collide along the path: at every level, the path
/// child's accumulated fingerprint — on either side — differs from every
/// sibling's. This rules out exactly the false-positive matches the
/// fingerprinting scheme accepts by design.
pub open spec fn path_collision_free(
    t1: Seq<XNodeView>,
    t2: Seq<XNodeView>,
    path: Seq<int>,
) -> bool {
    forall|i: int, q: int|
        #![trigger kids(t1, path[i])[q]]
        0 <= i < path.len() - 1 && 0 <= q < kids(t1, path[i]).len() && kids(t1, path[i])[q]
            != path[i + 1] ==> acc_hash(t1, kids(t1, path[i])[q]) != acc_hash(t1, path[i + 1])
            && acc_hash(t2, kids(t1, path[i])[q]) != acc_hash(t2, path[i + 1])
}

/// Every node of a well-formed document is reached from the root along
/// child links; this names one such path.
proof fn build_path(t: Seq<XNodeView>, l: int) -> (path: Seq<int>)
    requires
        tree_wf(t),
        0 <= l < t.len(),
    ensures
        path_to(t, path, l),
    decreases l,
{
    if l == 0 {
        let path = seq![0int];
        assert forall|i: int| 0 <= i < path.len() implies 0 <= #[trigger] path[i] < t.len() by {}
        path
    } else {
        assert(node_wf(t, l));
        match t[l].parent {
            Some(p) => {
                let prefix = build_path(t, p);
                let path = prefix.push(l);
                assert(path[0] == prefix[0]);
                assert forall|i: int| 0 <= i < path.len() implies 0 <= #[trigger] path[i]
                    < t.len() by {
                    if i < prefix.len() {
                        assert(path[i] == prefix[i]);
                    }
                }
                assert forall|i: int| 0 <= i < path.len() - 1 implies kids(
                    t,
                    #[trigger] path[i],
                ).contains(path[i + 1]) by {
                    if i < prefix.len() - 1 {
                        assert(path[i] == prefix[i]);
                        assert(path[i + 1] == prefix[i + 1]);
                        assert(kids(t, prefix[i]).contains(prefix[i + 1]));
                    } else {
                        assert(path[i] == p);
                        assert(path[i + 1] == l);
                        assert(kids(t, p).contains(l));
                    }
                }
                path
            },
            None => {
                assert(false);
                seq![0int]
            },
        }
    }
}

/// Every node of a root-to-leaf path stands on the leaf's ancestor chain.
proof fn lemma_path_on_chain(t: Seq<XNodeView>, path: Seq<int>, l: int, i: int)
    requires
        tree_wf(t),
        path_to(t, path, l),
        0 <= l < t.len(),
        0 <= i < path.len(),
    ensures
        on_chain(t, path[i], l),
    decreases path.len() - i,
{
    if i == path.len() - 1 {
        assert(on_chain(t, l, l));
    } else {
        lemma_path_on_chain(t, path, l, i + 1);
        assert(kids(t, path[i]).contains(path[i + 1]));
        let kp = choose|kp: int|
            0 <= kp < kids(t, path[i]).len() && kids(t, path[i])[kp] == path[i + 1];
        lemma_kids_bounds(t, path[i], kp);
        lemma_on_chain_parent(t, path[i], path[i + 1], l);
    }
}

/// Leaf value change: when the two documents differ only in the value of
/// one attribute or text leaf, the leaf's fingerprint changes, and the
/// script is exactly one update of that leaf carrying the trimmed old and
/// new values — never an insert or a delete. The inputs the fingerprinting
/// scheme is allowed to confuse are excluded by `path_collision_free` and
/// by the leaf's two shallow fingerprints differing at byte `b`.
proof fn lemma_leaf_update_from(
    t1: Seq<XNodeView>,
    t2: Seq<XNodeView>,
    l: int,
    b: int,
    path: Seq<int>,
    i: int,
)
    requires
        tree_wf(t1),
        tree_wf(t2),
        differs_only_at(t1, t2, l),
        kids(t1, l).len() == 0,
        0 <= b < DIGEST_WIDTH,
        shallow_hash(t1[l].kind)[b] != shallow_hash(t2[l].kind)[b],
        path_to(t1, path, l),
        path_collision_free(t1, t2, path),
        0 <= i < path.len(),
    ensures
        acc_hash(t1, path[i]).len() == DIGEST_WIDTH,
        acc_hash(t2, path[i]).len() == DIGEST_WIDTH,
        acc_hash(t1, path[i])[b] != acc_hash(t2, path[i])[b],
        spec_diff_node(t1, path[i], t2, path[i]) == seq![
            EditView::Update {
                node: l,
                old_value: trim_of(t1[l].kind.value()),
                new_value: trim_of(t2[l].kind.value()),
            },
        ],
    decreases path.len() - i,
{
    let n = path[i];
    lemma_wf_distinct_kids(t1);
    lemma_acc_hash_width(t1, n);
    lemma_acc_hash_width(t2, n);
    let upd = EditView::Update {
        node: l,
        old_value: trim_of(t1[l].kind.value()),
        new_value: trim_of(t2[l].kind.value()),
    };
    if i == path.len() - 1 {
        assert(n == l);
        assert(kids(t2, l) =~= kids(t1, l));
        assert(acc_hash(t1, l) == acc_from(t1, l, shallow_hash(t1[l].kind), 0));
        assert(acc_from(t1, l, shallow_hash(t1[l].kind), 0) == shallow_hash(t1[l].kind));
        assert(acc_hash(t2, l) == acc_from(t2, l, shallow_hash(t2[l].kind), 0));
        assert(acc_from(t2, l, shallow_hash(t2[l].kind), 0) == shallow_hash(t2[l].kind));
        assert(acc_hash(t1, l) != acc_hash(t2, l));
        assert(leaf_pair(t1[l].kind, t2[l].kind));
        assert(spec_diff_node(t1, l, t2, l) == seq![upd]);
    } else {
        let pc = path[i + 1];
        lemma_leaf_update_from(t1, t2, l, b, path, i + 1);
        let k = kids(t1, n);
        assert(k.contains(pc));
        let kp = choose|kp: int| 0 <= kp < k.len() && k[kp] == pc;
        lemma_kids_bounds(t1, n, kp);
        assert(k.len() > 0);
        assert(n != l);
        assert(t1[n] == t2[n]);
        assert(kids(t2, n) == k);
        assert(node_wf(t1, n));
        assert(t1[n].kind is Element);
        lemma_path_on_chain(t1, path, l, i + 1);
        // Each sibling keeps its fingerprint on both sides, and collides
        // with nothing.
        assert forall|q: int| 0 <= q < k.len() && q != kp implies #[trigger] k[q] != pc
            && acc_hash(t1, k[q]) == acc_hash(t2, k[q]) && acc_hash(t1, k[q]) != acc_hash(
            t1,
            pc,
        ) && acc_hash(t2, k[q]) != acc_hash(t2, pc) by {
            if q < kp {
                assert(kids(t1, n)[q] != kids(t1, n)[kp]);
            } else {
                assert(kids(t1, n)[kp] != kids(t1, n)[q]);
            }
            lemma_kids_bounds(t1, n, q);
            if in_subtree(t1, k[q], l) {
                lemma_subtree_on_chain(t1, k[q], l);
                lemma_chain_siblings(t1, k[q], pc, l);
                assert(false);
            }
            lemma_untouched_acc(t1, t2, l, k[q]);
            assert(kids(t1, path[i])[q] != path[i + 1]);
        }
        // The fingerprint difference climbs to this level at the same byte.
        let ds1 = digests_of(t1, k);
        let ds2 = digests_of(t2, k);
        assert forall|m: int| 0 <= m < ds1.len() implies (#[trigger] ds1[m]).len()
            == DIGEST_WIDTH by {
            lemma_kids_bounds(t1, n, m);
            lemma_acc_hash_width(t1, k[m]);
        }
        assert forall|m: int| 0 <= m < ds2.len() implies (#[trigger] ds2[m]).len()
            == DIGEST_WIDTH by {
            lemma_kids_bounds(t1, n, m);
            lemma_acc_hash_width(t2, k[m]);
        }
        assert(all_width(ds1));
        assert(all_width(ds2));
        lemma_digest_sum_remove(ds1, kp);
        lemma_digest_sum_remove(ds2, kp);
        assert(ds1.remove(kp) =~= ds2.remove(kp));
        let rest = digest_sum(ds1.remove(kp));
        assert(all_width(ds1.remove(kp)));
        lemma_digest_sum_width(ds1.remove(kp));
        lemma_acc_hash_sum(t1, n);
        lemma_acc_hash_sum(t2, n);
        let d1 = acc_hash(t1, pc);
        let d2 = acc_hash(t2, pc);
        assert(ds1[kp] == d1);
        assert(ds2[kp] == d2);
        assert(digest_sum(ds1)[b] == (d1[b] + rest[b]) % 256);
        assert(digest_sum(ds2)[b] == (d2[b] + rest[b]) % 256);
        lemma_mod_add_distinct(d1[b] as int, d2[b] as int, rest[b] as int);
        let sh = shallow_hash(t1[n].kind);
        lemma_digest_sum_width(ds1);
        lemma_digest_sum_width(ds2);
        assert(acc_hash(t1, n)[b] == (sh[b] + digest_sum(ds1)[b]) % 256);
        assert(acc_hash(t2, n)[b] == (sh[b] + digest_sum(ds2)[b]) % 256);
        lemma_mod_add_distinct(
            digest_sum(ds1)[b] as int,
            digest_sum(ds2)[b] as int,
            sh[b] as int,
        );
        assert(acc_hash(t1, n)[b] != acc_hash(t2, n)[b]);
        assert(acc_hash(t1, n) != acc_hash(t2, n));
        // Exactly the path child remains for pairing, on both sides.
        lemma_remaining_single(t1, t2, k, kp, 0);
        lemma_remaining_single(t2, t1, k, kp, 0);
        let r1 = remaining(t1, k, t2, k);
        let r2 = remaining(t2, k, t1, k);
        assert(r1 == seq![pc]);
        assert(r2 == seq![pc]);
        // The one candidate pairs the child with itself.
        assert(sig_of(t1[pc].kind) == sig_of(t2[pc].kind)) by {
            if pc == l {
                assert(value_leaf_alike(t1[l].kind, t2[l].kind));
            } else {
                assert(t1[pc] == t2[pc]);
            }
        }
        let cand = CandView { c1: pc, c2: pc, script: spec_diff_node(t1, pc, t2, pc) };
        assert(spec_cands(t1, n, r1, 1, t2, r2, 0) == Seq::<CandView>::empty());
        assert(spec_cands(t1, n, r1, 0, t2, r2, 1) == spec_cands(t1, n, r1, 1, t2, r2, 0));
        assert(spec_cands(t1, n, r1, 0, t2, r2, 0) == seq![cand] + spec_cands(
            t1,
            n,
            r1,
            0,
            t2,
            r2,
            1,
        ));
        assert(seq![cand] + Seq::<CandView>::empty() =~= seq![cand]);
        assert(spec_cands(t1, n, r1, 0, t2, r2, 0) == seq![cand]);
        // Sorting a single candidate changes nothing.
        assert(seq![cand].drop_last() =~= Seq::<CandView>::empty());
        assert(seq![cand].last() == cand);
        assert(sort_cands(Seq::<CandView>::empty()) == Seq::<CandView>::empty());
        assert(sort_cands(seq![cand]) == insert_by_len(Seq::<CandView>::empty(), cand));
        assert(insert_by_len(Seq::<CandView>::empty(), cand) == seq![cand]);
        // The greedy pass commits it.
        let e: Set<int> = Set::empty();
        let picked = greedy(seq![cand], e, e);
        assert(seq![cand].first() == cand);
        assert(!e.contains(cand.c1) && !e.contains(cand.c2));
        assert(seq![cand].drop_first() =~= Seq::<CandView>::empty());
        assert(greedy(Seq::<CandView>::empty(), e.insert(pc), e.insert(pc)) == (
            Seq::<EditView>::empty(),
            e.insert(pc),
            e.insert(pc),
        ));
        assert(picked.0 == cand.script + Seq::<EditView>::empty());
        assert(cand.script + Seq::<EditView>::empty() =~= cand.script);
        assert(picked.1 == e.insert(pc));
        assert(picked.2 == e.insert(pc));
        // Nothing is left to delete or insert.
        assert(e.insert(pc).contains(r1[0]));
        assert(spec_deletes(r1, picked.1, 1) == Seq::<EditView>::empty());
        assert(spec_deletes(r1, picked.1, 0) == Seq::<EditView>::empty());
        assert(spec_inserts(r2, picked.2, n, 1) == Seq::<EditView>::empty());
        assert(spec_inserts(r2, picked.2, n, 0) == Seq::<EditView>::empty());
        assert(!leaf_pair(t1[n].kind, t2[n].kind));
        assert(spec_diff_node(t1, n, t2, n) == picked.0 + spec_deletes(r1, picked.1, 0)
            + spec_inserts(r2, picked.2, n, 0));
        assert(cand.script + Seq::<EditView>::empty() + Seq::<EditView>::empty()
            =~= cand.script);
        assert(spec_diff_node(t1, n, t2, n) == seq![upd]);
    }
}

/// Sibling fingerprints never collide: within any one child list, two
/// different children always carry different accumulated fingerprints.
/// This is the generic situation; the false-positive matches the
/// fingerprinting scheme accepts by design are exactly its failures.
pub open spec fn no_sibling_collisions(t: Seq<XNodeView>) -> bool {
    forall|i: int, a: int, c: int|
        #![trigger kids(t, i)[a], kids(t, i)[c]]
        0 <= i < t.len() && 0 <= a < kids(t, i).len() && 0 <= c < kids(t, i).len() && a != c
            ==> acc_hash(t, kids(t, i)[a]) != acc_hash(t, kids(t, i)[c])
}

/// Leaf value change: when two documents differ only in the value of one
/// attribute or text leaf, and that change shows in the leaf's fingerprint
/// (some byte `b` differs), the script is exactly one update of that leaf,
/// carrying the trimmed old and new values — no other edit, never an
/// insert plus a delete. Inputs on which the fingerprinting scheme's
/// accepted false positives strike are excluded by `no_sibling_collisions`
/// and by the fingerprint-difference premise.
pub proof fn lemma_diff_leaf_value_change(t1: Seq<XNodeView>, t2: Seq<XNodeView>, l: int, b: int)
    requires
        tree_wf(t1),
        tree_wf(t2),
        differs_only_at(t1, t2, l),
        kids(t1, l).len() == 0,
        0 <= b < DIGEST_WIDTH,
        shallow_hash(t1[l].kind)[b] != shallow_hash(t2[l].kind)[b],
        no_sibling_collisions(t1),
        no_sibling_collisions(t2),
    ensures
        spec_diff(t1, t2) == seq![
            EditView::Update {
                node: l,
                old_value: trim_of(t1[l].kind.value()),
                new_value: trim_of(t2[l].kind.value()),
            },
        ],
{
    let path = build_path(t1, l);
    assert forall|i: int, q: int|
        #![trigger kids(t1, path[i])[q]]
        0 <= i < path.len() - 1 && 0 <= q < kids(t1, path[i]).len() && kids(t1, path[i])[q]
            != path[i + 1] implies acc_hash(t1, kids(t1, path[i])[q]) != acc_hash(
        t1,
        path[i + 1],
    ) && acc_hash(t2, kids(t1, path[i])[q]) != acc_hash(t2, path[i + 1]) by {
        let n = path[i];
        let k = kids(t1, n);
        assert(k.contains(path[i + 1]));
        let kp = choose|kp: int| 0 <= kp < k.len() && k[kp] == path[i + 1];
        assert(q != kp);
        assert(acc_hash(t1, k[q]) != acc_hash(t1, k[kp]));
        assert(k.len() > 0);
        assert(n != l);
        assert(t1[n] == t2[n]);
        assert(kids(t2, n) == k);
        assert(kids(t2, n)[q] == k[q]);
        assert(kids(t2, n)[kp] == k[kp]);
        assert(acc_hash(t2, k[q]) != acc_hash(t2, k[kp]));
    }
    lemma_leaf_update_from(t1, t2, l, b, path, 0);
    assert(t1[0] == t2[0]);
    assert(sig_of(t1[0].kind) == sig_of(t2[0].kind));
}

} // verus!
