//! The document tree: a uniform, read-only node model over element,
//! attribute and text nodes.
//!
//! A document owns all of its nodes in one arena; a node's identity is its
//! arena index, unique within the document. Attribute nodes are stored as
//! pseudo-children of their owning element, after the real children, so the
//! diff engine sees one uniform child list. Children always carry a higher
//! index than their parent, which grounds every traversal's termination.

use vstd::prelude::*;

verus! {

use crate::digest::{
    DIGEST_WIDTH,
    Digest,
    all_width,
    combine,
    digest_sum,
    fit_width,
    lemma_combine_assoc,
    lemma_combine_zero,
    lemma_digest_sum_width,
    lemma_fit_width_id,
    md5_of,
    md5_string,
};
use vstd::string::StringExecFns;

/// What `str::trim` returns for a given sequence of characters: the
/// characters with leading and trailing whitespace removed; a fixed
/// function of the characters alone.
pub uninterp spec fn trim_of(s: Seq<char>) -> Seq<char>;

/// Relies on `str::trim`: removes leading and trailing whitespace; the
/// result depends on the characters alone.
#[verifier::external_body]
pub(crate) fn trim_str(s: &str) -> (r: String)
    ensures
        r@ == trim_of(s@),
{
    s.trim().to_string()
}

/// The identity of one node within its owning document: its arena index,
/// unique for the document's lifetime. An attribute pseudo-child has an
/// index of its own, tied to its owning element through the parent link.
#[derive(Debug, Clone, Copy, PartialEq, Eq, Structural, Hash)]
pub struct XNodeId(pub usize);

/// What one node is, with its identity-relevant content. A namespace that
/// the source document does not give is the empty string.
pub enum XNodeKind {
    Element { namespace: String, name: String },
    Attribute { namespace: String, name: String, value: String },
    Text { value: String },
}

/// The mathematical value of a node's kind and content.
pub ghost enum XNodeKindView {
    Element { namespace: Seq<char>, name: Seq<char> },
    Attribute { namespace: Seq<char>, name: Seq<char>, value: Seq<char> },
    Text { value: Seq<char> },
}

impl View for XNodeKind {
    type V = XNodeKindView;

    open spec fn view(&self) -> XNodeKindView {
        match self {
            XNodeKind::Element { namespace, name } => XNodeKindView::Element {
                namespace: namespace@,
                name: name@,
            },
            XNodeKind::Attribute { namespace, name, value } => XNodeKindView::Attribute {
                namespace: namespace@,
                name: name@,
                value: value@,
            },
            XNodeKind::Text { value } => XNodeKindView::Text { value: value@ },
        }
    }
}

impl XNodeKindView {
    /// The raw stored string of a value-bearing node; empty for elements.
    pub open spec fn value(self) -> Seq<char> {
        match self {
            XNodeKindView::Element { .. } => Seq::empty(),
            XNodeKindView::Attribute { value, .. } => value,
            XNodeKindView::Text { value } => value,
        }
    }
}

/// The structural key that decides whether two nodes may ever be paired:
/// namespace and tag name for an element, namespace and name for an
/// attribute, a fixed marker for text. Values play no part in it.
pub open spec fn sig_of(k: XNodeKindView) -> Seq<char> {
    match k {
        XNodeKindView::Element { namespace, name } => namespace + ":"@ + name,
        XNodeKindView::Attribute { namespace, name, .. } => namespace + name,
        XNodeKindView::Text { .. } => "text"@,
    }
}

/// The characters whose digest is a node's shallow fingerprint: tag name
/// for an element, name and raw value for an attribute, the trimmed
/// content for a text node.
pub open spec fn shallow_input(k: XNodeKindView) -> Seq<char> {
    match k {
        XNodeKindView::Element { namespace, name } => namespace + ":"@ + name,
        XNodeKindView::Attribute { namespace, name, value } => namespace + name + "="@ + value,
        XNodeKindView::Text { value } => trim_of(value),
    }
}

/// A node's shallow content fingerprint: a pure function of the node's own
/// data, ignoring descendants.
pub open spec fn shallow_hash(k: XNodeKindView) -> Seq<u8> {
    fit_width(md5_of(shallow_input(k)))
}

/// A node's name, as a caller reads it: the tag name of an element, the
/// name of an attribute, or the fixed text marker.
#[derive(Debug, Clone)]
pub enum XNodeName {
    TagName { namespace: String, name: String },
    AttributeName { namespace: String, name: String },
    Text,
}

/// The mathematical value of a node's name.
pub ghost enum XNodeNameView {
    TagName { namespace: Seq<char>, name: Seq<char> },
    AttributeName { namespace: Seq<char>, name: Seq<char> },
    Text,
}

impl View for XNodeName {
    type V = XNodeNameView;

    open spec fn view(&self) -> XNodeNameView {
        match self {
            XNodeName::TagName { namespace, name } => XNodeNameView::TagName {
                namespace: namespace@,
                name: name@,
            },
            XNodeName::AttributeName { namespace, name } => XNodeNameView::AttributeName {
                namespace: namespace@,
                name: name@,
            },
            XNodeName::Text => XNodeNameView::Text,
        }
    }
}

/// The name a node of the given kind carries.
pub open spec fn name_of(k: XNodeKindView) -> XNodeNameView {
    match k {
        XNodeKindView::Element { namespace, name } => XNodeNameView::TagName { namespace, name },
        XNodeKindView::Attribute { namespace, name, .. } => XNodeNameView::AttributeName {
            namespace,
            name,
        },
        XNodeKindView::Text { .. } => XNodeNameView::Text,
    }
}

/// The mathematical value of one stored node.
pub ghost struct XNodeView {
    pub kind: XNodeKindView,
    pub parent: Option<int>,
    pub children: Seq<int>,
    pub attrs: Seq<int>,
}

/// One stored node: its content, its parent's index, and the indices of its
/// real children and of its attribute pseudo-children, each in document
/// order.
struct NodeData {
    kind: XNodeKind,
    parent: Option<usize>,
    children: Vec<usize>,
    attrs: Vec<usize>,
}

impl View for NodeData {
    type V = XNodeView;

    closed spec fn view(&self) -> XNodeView {
        XNodeView {
            kind: self.kind@,
            parent: match self.parent {
                Some(p) => Some(p as int),
                None => None,
            },
            children: self.children@.map_values(|c: usize| c as int),
            attrs: self.attrs@.map_values(|c: usize| c as int),
        }
    }
}

/// The one uniform child list the diff engine sees: real children in
/// document order, then attribute pseudo-children in document order.
pub open spec fn kids(t: Seq<XNodeView>, i: int) -> Seq<int> {
    t[i].children + t[i].attrs
}

/// Node indices held in executable code, as mathematical integers.
pub open spec fn idxs(v: Seq<usize>) -> Seq<int> {
    v.map_values(|c: usize| c as int)
}

/// Local well-formedness of node `i`: child links stay inside the arena,
/// point forward (a child's index exceeds its parent's), run in increasing
/// order — identities are handed out in document order — and agree with
/// the children's parent links and kinds; only elements have children.
pub open spec fn node_wf(t: Seq<XNodeView>, i: int) -> bool {
    &&& (t[i].kind is Element ==> {
        &&& (forall|k: int|
            0 <= k < t[i].children.len() ==> i < #[trigger] t[i].children[k] < t.len()
                && t[t[i].children[k]].parent == Some(i) && !(t[t[i].children[k]].kind
                is Attribute))
        &&& (forall|k: int|
            0 <= k < t[i].attrs.len() ==> i < #[trigger] t[i].attrs[k] < t.len()
                && t[t[i].attrs[k]].parent == Some(i) && t[t[i].attrs[k]].kind is Attribute)
        &&& (forall|a: int, c: int|
            #![trigger t[i].children[a], t[i].children[c]]
            0 <= a < c < t[i].children.len() ==> t[i].children[a] < t[i].children[c])
        &&& (forall|a: int, c: int|
            #![trigger t[i].attrs[a], t[i].attrs[c]]
            0 <= a < c < t[i].attrs.len() ==> t[i].attrs[a] < t[i].attrs[c])
    })
    &&& (!(t[i].kind is Element) ==> t[i].children.len() == 0 && t[i].attrs.len() == 0)
    &&& (i == 0 ==> t[i].parent is None)
    &&& (i != 0 ==> match t[i].parent {
        Some(p) => 0 <= p < i && kids(t, p).contains(i),
        None => false,
    })
}

/// A well-formed document: a root element at index zero and every node
/// locally well-formed.
pub open spec fn tree_wf(t: Seq<XNodeView>) -> bool {
    &&& 1 <= t.len()
    &&& t[0].kind is Element
    &&& forall|i: int| 0 <= i < t.len() ==> #[trigger] node_wf(t, i)
}

/// The accumulated content fingerprint of the subtree under node `i`: the
/// node's shallow fingerprint combined, child by child, with each child's
/// accumulated fingerprint. Because the combiner is commutative and
/// associative, the result depends only on the multiset of child
/// fingerprints (`lemma_acc_hash_sum`), never on sibling order.
pub open spec fn acc_hash(t: Seq<XNodeView>, i: int) -> Seq<u8>
    decreases t.len() - i, kids(t, i).len() + 1,
        when tree_wf(t) && 0 <= i < t.len()
{
    acc_from(t, i, shallow_hash(t[i].kind), 0)
}

/// Folds the accumulated fingerprints of `kids(t, i)[k..]` into `acc`.
pub open spec fn acc_from(t: Seq<XNodeView>, i: int, acc: Seq<u8>, k: int) -> Seq<u8>
    decreases t.len() - i, kids(t, i).len() - k,
        when tree_wf(t) && 0 <= i < t.len() && 0 <= k <= kids(t, i).len()
{
    if k >= kids(t, i).len() {
        acc
    } else {
        proof {
            assert(node_wf(t, i));
            if k < t[i].children.len() {
                assert(t[i].children[k] == kids(t, i)[k]);
            } else {
                assert(t[i].attrs[k - t[i].children.len()] == kids(t, i)[k]);
            }
        }
        acc_from(t, i, combine(acc, acc_hash(t, kids(t, i)[k])), k + 1)
    }
}

/// The accumulated fingerprints of the listed nodes, in list order.
pub open spec fn digests_of(t: Seq<XNodeView>, cs: Seq<int>) -> Seq<Seq<u8>> {
    Seq::new(cs.len(), |k: int| acc_hash(t, cs[k]))
}

/// Every index in `kids(t, i)` is a valid node index above `i`, and the
/// listed node points back to `i` as its parent.
pub proof fn lemma_kids_bounds(t: Seq<XNodeView>, i: int, k: int)
    requires
        tree_wf(t),
        0 <= i < t.len(),
        0 <= k < kids(t, i).len(),
    ensures
        i < kids(t, i)[k] < t.len(),
        t[kids(t, i)[k]].parent == Some(i),
{
    assert(node_wf(t, i));
    if k < t[i].children.len() {
        assert(t[i].children[k] == kids(t, i)[k]);
    } else {
        assert(t[i].attrs[k - t[i].children.len()] == kids(t, i)[k]);
    }
}

proof fn lemma_acc_from_width(t: Seq<XNodeView>, i: int, acc: Seq<u8>, k: int)
    requires
        tree_wf(t),
        0 <= i < t.len(),
        0 <= k <= kids(t, i).len(),
    ensures
        acc_from(t, i, acc, k).len() == acc.len(),
    decreases kids(t, i).len() - k,
{
    if k < kids(t, i).len() {
        lemma_kids_bounds(t, i, k);
        let next = combine(acc, acc_hash(t, kids(t, i)[k]));
        assert(acc_from(t, i, acc, k) == acc_from(t, i, next, k + 1));
        lemma_acc_from_width(t, i, next, k + 1);
    }
}

/// An accumulated fingerprint always has the fixed digest width.
pub proof fn lemma_acc_hash_width(t: Seq<XNodeView>, i: int)
    requires
        tree_wf(t),
        0 <= i < t.len(),
    ensures
        acc_hash(t, i).len() == DIGEST_WIDTH,
{
    lemma_acc_from_width(t, i, shallow_hash(t[i].kind), 0);
}

proof fn lemma_acc_from_sum(t: Seq<XNodeView>, i: int, acc: Seq<u8>, k: int)
    requires
        tree_wf(t),
        0 <= i < t.len(),
        0 <= k <= kids(t, i).len(),
        acc.len() == DIGEST_WIDTH,
    ensures
        acc_from(t, i, acc, k) == combine(acc, digest_sum(digests_of(t, kids(t, i)).skip(k))),
    decreases kids(t, i).len() - k,
{
    let ds = digests_of(t, kids(t, i));
    assert forall|m: int| 0 <= m < ds.len() implies (#[trigger] ds[m]).len() == DIGEST_WIDTH by {
        lemma_kids_bounds(t, i, m);
        lemma_acc_hash_width(t, kids(t, i)[m]);
    }
    if k == kids(t, i).len() {
        assert(ds.skip(k) =~= Seq::<Seq<u8>>::empty());
        lemma_combine_zero(acc);
    } else {
        let c = kids(t, i)[k];
        let d = ds[k];
        lemma_kids_bounds(t, i, k);
        assert(acc_from(t, i, acc, k) == acc_from(t, i, combine(acc, d), k + 1));
        lemma_acc_from_sum(t, i, combine(acc, d), k + 1);
        assert(all_width(ds.skip(k + 1)));
        lemma_digest_sum_width(ds.skip(k + 1));
        lemma_combine_assoc(acc, d, digest_sum(ds.skip(k + 1)));
        assert(ds.skip(k).drop_first() =~= ds.skip(k + 1));
        assert(ds.skip(k).first() == d);
    }
}

/// The accumulated fingerprint is the shallow fingerprint combined with the
/// digest sum of the children's accumulated fingerprints — the form the
/// order-insensitivity argument rests on.
pub proof fn lemma_acc_hash_sum(t: Seq<XNodeView>, i: int)
    requires
        tree_wf(t),
        0 <= i < t.len(),
    ensures
        acc_hash(t, i) == combine(
            shallow_hash(t[i].kind),
            digest_sum(digests_of(t, kids(t, i))),
        ),
{
    lemma_acc_from_sum(t, i, shallow_hash(t[i].kind), 0);
    assert(digests_of(t, kids(t, i)).skip(0) =~= digests_of(t, kids(t, i)));
}

/// A document: the arena owning all of its nodes. Index zero is the root
/// element.
pub struct XTree {
    nodes: Vec<NodeData>,
}

impl View for XTree {
    type V = Seq<XNodeView>;

    closed spec fn view(&self) -> Seq<XNodeView> {
        self.nodes@.map_values(|n: NodeData| n@)
    }
}

impl XTree {
    pub open spec fn wf(&self) -> bool {
        tree_wf(self@)
    }

    /// The number of nodes the document holds.
    pub fn node_count(&self) -> (r: usize)
        ensures
            r == self@.len(),
    {
        self.nodes.len()
    }

    /// A new document holding just its root element.
    pub fn new(namespace: String, name: String) -> (r: XTree)
        ensures
            r.wf(),
            r@.len() == 1,
            r@[0].kind == (XNodeKindView::Element { namespace: namespace@, name: name@ }),
            r@[0].children.len() == 0,
            r@[0].attrs.len() == 0,
    {
        let mut nodes: Vec<NodeData> = Vec::new();
        nodes.push(
            NodeData {
                kind: XNodeKind::Element { namespace, name },
                parent: None,
                children: Vec::new(),
                attrs: Vec::new(),
            },
        );
        let r = XTree { nodes };
        proof {
            assert(r@.len() == 1);
            assert(node_wf(r@, 0));
        }
        r
    }

    /// Appends a fresh childless node and links it under `parent`, in the
    /// attribute list when `as_attr` holds and in the real-children list
    /// otherwise.
    fn attach(&mut self, parent: usize, kind: XNodeKind, as_attr: bool) -> (r: usize)
        requires
            old(self).wf(),
            parent < old(self)@.len(),
            old(self)@[parent as int].kind is Element,
            as_attr <==> kind@ is Attribute,
        ensures
            final(self).wf(),
            r == old(self)@.len(),
            final(self)@.len() == old(self)@.len() + 1,
            final(self)@[r as int].kind == kind@,
            final(self)@[r as int].parent == Some(parent as int),
            final(self)@[r as int].children.len() == 0,
            final(self)@[r as int].attrs.len() == 0,
            final(self)@[parent as int].kind == old(self)@[parent as int].kind,
            final(self)@[parent as int].parent == old(self)@[parent as int].parent,
            as_attr ==> final(self)@[parent as int].attrs == old(self)@[parent as int].attrs.push(
                r as int,
            ) && final(self)@[parent as int].children == old(self)@[parent as int].children,
            !as_attr ==> final(self)@[parent as int].children == old(self)@[parent as int].children.push(
                r as int,
            ) && final(self)@[parent as int].attrs == old(self)@[parent as int].attrs,
            forall|j: int| 0 <= j < old(self)@.len() && j != parent ==> final(self)@[j] == old(self)@[j],
    {
        let ghost oldv = self@;
        let idx = self.nodes.len();
        self.nodes.push(
            NodeData { kind, parent: Some(parent), children: Vec::new(), attrs: Vec::new() },
        );
        if as_attr {
            self.nodes[parent].attrs.push(idx);
        } else {
            self.nodes[parent].children.push(idx);
        }
        proof {
            let newv = self@;
            assert(newv.len() == oldv.len() + 1);
            assert forall|j: int| 0 <= j < oldv.len() && j != parent implies newv[j] == oldv[j] by {
            }
            assert(newv[parent as int].children =~= if as_attr {
                oldv[parent as int].children
            } else {
                oldv[parent as int].children.push(idx as int)
            });
            assert(newv[parent as int].attrs =~= if as_attr {
                oldv[parent as int].attrs.push(idx as int)
            } else {
                oldv[parent as int].attrs
            });
            assert(newv[idx as int].children =~= Seq::<int>::empty());
            assert(newv[idx as int].attrs =~= Seq::<int>::empty());
            // The parent's uniform child list keeps every old entry and
            // gains the fresh node; no other list changes.
            assert forall|x: int| kids(oldv, parent as int).contains(x) implies kids(
                newv,
                parent as int,
            ).contains(x) by {
                let q0 = choose|q0: int|
                    0 <= q0 < kids(oldv, parent as int).len() && kids(oldv, parent as int)[q0]
                        == x;
                if as_attr {
                    assert(kids(newv, parent as int)[q0] == x);
                } else {
                    if q0 < oldv[parent as int].children.len() {
                        assert(kids(newv, parent as int)[q0] == x);
                    } else {
                        assert(kids(newv, parent as int)[q0 + 1] == x);
                    }
                }
            }
            if as_attr {
                assert(kids(newv, parent as int)[(newv[parent as int].children.len() + oldv[parent
                    as int].attrs.len()) as int] == idx as int);
            } else {
                assert(kids(newv, parent as int)[oldv[parent as int].children.len() as int] == idx
                    as int);
            }
            assert(kids(newv, parent as int).contains(idx as int));
            assert forall|p: int| 0 <= p < oldv.len() && p != parent as int implies kids(newv, p)
                == kids(oldv, p) by {
                assert(newv[p] == oldv[p]);
            }
            assert forall|j: int| 0 <= j < newv.len() implies node_wf(newv, j) by {
                if j == idx as int {
                    assert(node_wf(newv, j));
                } else {
                    assert(node_wf(oldv, j));
                    if j != 0 {
                        match oldv[j].parent {
                            Some(pj) => {
                                assert(kids(oldv, pj).contains(j));
                                assert(kids(newv, pj).contains(j));
                            },
                            None => {
                                assert(false);
                            },
                        }
                    }
                    if j == parent as int {
                        assert(node_wf(newv, j));
                    } else {
                        assert(node_wf(newv, j));
                    }
                }
            }
        }
        idx
    }

    /// Appends a child element under `parent` and returns its identity
    /// index, one past every earlier node's.
    pub fn add_element(&mut self, parent: usize, namespace: String, name: String) -> (r: usize)
        requires
            old(self).wf(),
            parent < old(self)@.len(),
            old(self)@[parent as int].kind is Element,
        ensures
            final(self).wf(),
            r == old(self)@.len(),
            final(self)@.len() == old(self)@.len() + 1,
            final(self)@[r as int].kind == (XNodeKindView::Element { namespace: namespace@, name: name@ }),
            final(self)@[r as int].parent == Some(parent as int),
            final(self)@[r as int].children.len() == 0,
            final(self)@[r as int].attrs.len() == 0,
            final(self)@[parent as int].kind == old(self)@[parent as int].kind,
            final(self)@[parent as int].parent == old(self)@[parent as int].parent,
            final(self)@[parent as int].children == old(self)@[parent as int].children.push(r as int),
            final(self)@[parent as int].attrs == old(self)@[parent as int].attrs,
            forall|j: int| 0 <= j < old(self)@.len() && j != parent ==> final(self)@[j] == old(self)@[j],
    {
        self.attach(parent, XNodeKind::Element { namespace, name }, false)
    }

    /// Appends an attribute pseudo-child under `parent` and returns its
    /// identity index. The value is stored raw, untrimmed.
    pub fn add_attribute(
        &mut self,
        parent: usize,
        namespace: String,
        name: String,
        value: String,
    ) -> (r: usize)
        requires
            old(self).wf(),
            parent < old(self)@.len(),
            old(self)@[parent as int].kind is Element,
        ensures
            final(self).wf(),
            r == old(self)@.len(),
            final(self)@.len() == old(self)@.len() + 1,
            final(self)@[r as int].kind == (XNodeKindView::Attribute {
                namespace: namespace@,
                name: name@,
                value: value@,
            }),
            final(self)@[r as int].parent == Some(parent as int),
            final(self)@[r as int].children.len() == 0,
            final(self)@[r as int].attrs.len() == 0,
            final(self)@[parent as int].kind == old(self)@[parent as int].kind,
            final(self)@[parent as int].parent == old(self)@[parent as int].parent,
            final(self)@[parent as int].attrs == old(self)@[parent as int].attrs.push(r as int),
            final(self)@[parent as int].children == old(self)@[parent as int].children,
            forall|j: int| 0 <= j < old(self)@.len() && j != parent ==> final(self)@[j] == old(self)@[j],
    {
        self.attach(parent, XNodeKind::Attribute { namespace, name, value }, true)
    }

    /// Appends a text child under `parent`, storing the raw, untrimmed
    /// value. Empty or whitespace-only text is never materialized: the
    /// document is then left unchanged and no identity is handed out.
    pub fn add_text(&mut self, parent: usize, value: String) -> (r: Option<usize>)
        requires
            old(self).wf(),
            parent < old(self)@.len(),
            old(self)@[parent as int].kind is Element,
        ensures
            final(self).wf(),
            trim_of(value@).len() == 0 ==> r is None && final(self)@ == old(self)@,
            trim_of(value@).len() > 0 ==> {
                &&& r == Some(old(self)@.len() as usize)
                &&& final(self)@.len() == old(self)@.len() + 1
                &&& final(self)@[old(self)@.len() as int].kind == (XNodeKindView::Text { value: value@ })
                &&& final(self)@[old(self)@.len() as int].parent == Some(parent as int)
                &&& final(self)@[old(self)@.len() as int].children.len() == 0
                &&& final(self)@[old(self)@.len() as int].attrs.len() == 0
                &&& final(self)@[parent as int].kind == old(self)@[parent as int].kind
                &&& final(self)@[parent as int].parent == old(self)@[parent as int].parent
                &&& final(self)@[parent as int].children == old(self)@[parent as int].children.push(
                    old(self)@.len() as int,
                )
                &&& final(self)@[parent as int].attrs == old(self)@[parent as int].attrs
                &&& forall|j: int|
                    0 <= j < old(self)@.len() && j != parent ==> final(self)@[j] == old(self)@[j]
            },
    {
        let trimmed = trim_str(value.as_str());
        if trimmed.as_str().is_empty() {
            None
        } else {
            Some(self.attach(parent, XNodeKind::Text { value }, false))
        }
    }

    /// Whether node `i` is an attribute pseudo-child.
    pub fn is_attribute(&self, i: usize) -> (r: bool)
        requires
            i < self@.len(),
        ensures
            r == (self@[i as int].kind is Attribute),
    {
        match &self.nodes[i].kind {
            XNodeKind::Attribute { .. } => true,
            _ => false,
        }
    }

    /// Whether node `i` is a text node.
    pub fn is_text(&self, i: usize) -> (r: bool)
        requires
            i < self@.len(),
        ensures
            r == (self@[i as int].kind is Text),
    {
        match &self.nodes[i].kind {
            XNodeKind::Text { .. } => true,
            _ => false,
        }
    }

    /// Whether node `i` is an element.
    pub fn is_element(&self, i: usize) -> (r: bool)
        requires
            i < self@.len(),
        ensures
            r == (self@[i as int].kind is Element),
    {
        match &self.nodes[i].kind {
            XNodeKind::Element { .. } => true,
            _ => false,
        }
    }

    /// The stored value of node `i` with leading and trailing whitespace
    /// removed; the empty string's trim for an element, which stores no
    /// value.
    pub fn trimmed_value(&self, i: usize) -> (r: String)
        requires
            i < self@.len(),
        ensures
            r@ == trim_of(self@[i as int].kind.value()),
    {
        match &self.nodes[i].kind {
            XNodeKind::Element { .. } => {
                proof {
                    reveal_strlit("");
                    assert(""@ =~= Seq::<char>::empty());
                }
                trim_str("")
            },
            XNodeKind::Attribute { value, .. } => trim_str(value.as_str()),
            XNodeKind::Text { value } => trim_str(value.as_str()),
        }
    }

    /// The uniform child list of node `i`: the real children in document
    /// order, then one pseudo-node per attribute in document order. Empty
    /// for attribute and text nodes.
    pub fn child_list(&self, i: usize) -> (r: Vec<usize>)
        requires
            i < self@.len(),
        ensures
            idxs(r@) == kids(self@, i as int),
    {
        let mut v: Vec<usize> = Vec::new();
        let mut k: usize = 0;
        while k < self.nodes[i].children.len()
            invariant
                i < self@.len(),
                self@.len() == self.nodes@.len(),
                k <= self@[i as int].children.len(),
                self@[i as int].children.len() == self.nodes@[i as int].children@.len(),
                idxs(v@) == self@[i as int].children.take(k as int),
            decreases self@[i as int].children.len() - k,
        {
            let c = self.nodes[i].children[k];
            proof {
                assert(self@[i as int].children[k as int] == c as int);
            }
            let ghost w0 = v@;
            v.push(c);
            k += 1;
            proof {
                let ghost ch = self@[i as int].children;
                assert(v@ == w0.push(c));
                assert(idxs(v@).len() == v@.len());
                assert(idxs(w0).len() == w0.len());
                assert(w0.len() == k as int - 1);
                assert(v@.len() == w0.len() + 1);
                assert(idxs(v@).len() == k as int);
                assert forall|m: int| 0 <= m < k as int implies idxs(v@)[m] == ch.take(
                    k as int,
                )[m] by {
                    assert(idxs(v@)[m] == v@[m] as int);
                    if m < k as int - 1 {
                        assert(v@[m] == w0[m]);
                        assert(idxs(w0)[m] == ch.take(k as int - 1)[m]);
                    } else {
                        assert(v@[m] == c);
                    }
                }
                assert(idxs(v@) =~= ch.take(k as int));
            }
        }
        proof {
            assert(self@[i as int].children.take(k as int) =~= self@[i as int].children);
        }
        let mut k: usize = 0;
        while k < self.nodes[i].attrs.len()
            invariant
                i < self@.len(),
                self@.len() == self.nodes@.len(),
                k <= self@[i as int].attrs.len(),
                self@[i as int].attrs.len() == self.nodes@[i as int].attrs@.len(),
                idxs(v@) == self@[i as int].children + self@[i as int].attrs.take(k as int),
            decreases self@[i as int].attrs.len() - k,
        {
            let c = self.nodes[i].attrs[k];
            proof {
                assert(self@[i as int].attrs[k as int] == c as int);
            }
            let ghost w0 = v@;
            v.push(c);
            k += 1;
            proof {
                let ghost ch = self@[i as int].children;
                let ghost at = self@[i as int].attrs;
                let ghost goal = ch + at.take(k as int);
                assert(v@ == w0.push(c));
                assert(idxs(w0).len() == w0.len());
                assert(w0.len() == ch.len() + k as int - 1);
                assert(idxs(v@).len() == goal.len());
                assert forall|m: int| 0 <= m < goal.len() implies idxs(v@)[m] == goal[m] by {
                    assert(idxs(v@)[m] == v@[m] as int);
                    if m < w0.len() {
                        assert(v@[m] == w0[m]);
                        assert(idxs(w0)[m] == (ch + at.take(k as int - 1))[m]);
                    } else {
                        assert(v@[m] == c);
                        assert(goal[m] == at[k as int - 1]);
                    }
                }
                assert(idxs(v@) =~= goal);
            }
        }
        proof {
            assert(self@[i as int].attrs.take(k as int) =~= self@[i as int].attrs);
            assert(idxs(v@) =~= kids(self@, i as int));
        }
        v
    }

    /// The structural key of node `i`, as the diff engine compares it.
    pub fn signature(&self, i: usize) -> (r: String)
        requires
            i < self@.len(),
        ensures
            r@ == sig_of(self@[i as int].kind),
    {
        match &self.nodes[i].kind {
            XNodeKind::Element { namespace, name } => {
                let mut s = namespace.clone();
                s.append(":");
                s.append(name.as_str());
                s
            },
            XNodeKind::Attribute { namespace, name, value: _ } => {
                let mut s = namespace.clone();
                s.append(name.as_str());
                s
            },
            XNodeKind::Text { value: _ } => String::from_str("text"),
        }
    }

    /// The shallow content fingerprint of node `i`: a digest of the node's
    /// own identity-relevant content, ignoring descendants.
    pub fn shallow(&self, i: usize) -> (r: Digest)
        requires
            i < self@.len(),
        ensures
            r@ == shallow_hash(self@[i as int].kind),
            r.wf(),
    {
        let d = match &self.nodes[i].kind {
            XNodeKind::Element { namespace, name } => {
                let mut s = namespace.clone();
                s.append(":");
                s.append(name.as_str());
                md5_string(s.as_str())
            },
            XNodeKind::Attribute { namespace, name, value } => {
                let mut s = namespace.clone();
                s.append(name.as_str());
                s.append("=");
                s.append(value.as_str());
                md5_string(s.as_str())
            },
            XNodeKind::Text { value } => {
                let t = trim_str(value.as_str());
                md5_string(t.as_str())
            },
        };
        proof {
            lemma_fit_width_id(md5_of(shallow_input(self@[i as int].kind)));
        }
        d
    }

    /// The root node: always present, always an element.
    pub fn root(&self) -> (r: XNode)
        requires
            self.wf(),
        ensures
            r.index == 0,
    {
        XNode { index: 0 }
    }

    /// The node an identity denotes, if the identity belongs to this
    /// document.
    pub fn get_node(&self, id: XNodeId) -> (r: Option<XNode>)
        ensures
            id.0 < self@.len() ==> r == Some(XNode { index: id.0 }),
            id.0 >= self@.len() ==> r is None,
    {
        if id.0 < self.nodes.len() {
            Some(XNode { index: id.0 })
        } else {
            None
        }
    }
}

/// The indices a list of node handles denotes.
pub open spec fn node_idxs(v: Seq<XNode>) -> Seq<int> {
    v.map_values(|x: XNode| x.index as int)
}

/// A lightweight, copyable handle on one node of a document. It carries
/// only the node's identity; reading operations take the owning document.
#[derive(Debug, Clone, Copy, PartialEq, Eq, Structural, Hash)]
pub struct XNode {
    pub index: usize,
}

impl XNode {
    /// The node's stable identity within its document.
    pub fn id(&self) -> (r: XNodeId)
        ensures
            r.0 == self.index,
    {
        XNodeId(self.index)
    }

    /// The node's name: tag name, attribute name, or the text marker.
    pub fn name(&self, tree: &XTree) -> (r: XNodeName)
        requires
            self.index < tree@.len(),
        ensures
            r@ == name_of(tree@[self.index as int].kind),
    {
        match &tree.nodes[self.index].kind {
            XNodeKind::Element { namespace, name } => XNodeName::TagName {
                namespace: namespace.clone(),
                name: name.clone(),
            },
            XNodeKind::Attribute { namespace, name, value: _ } => XNodeName::AttributeName {
                namespace: namespace.clone(),
                name: name.clone(),
            },
            XNodeKind::Text { value: _ } => XNodeName::Text,
        }
    }

    /// The parent node: the owning element of an attribute, the enclosing
    /// element of an element or text node, and nothing for the root.
    pub fn parent(&self, tree: &XTree) -> (r: Option<XNode>)
        requires
            self.index < tree@.len(),
        ensures
            match tree@[self.index as int].parent {
                Some(p) => r == Some(XNode { index: p as usize }),
                None => r is None,
            },
    {
        match self.index_parent(tree) {
            Some(p) => Some(XNode { index: p }),
            None => None,
        }
    }

    /// Reads the stored parent index.
    fn index_parent(&self, tree: &XTree) -> (r: Option<usize>)
        requires
            self.index < tree@.len(),
        ensures
            match tree@[self.index as int].parent {
                Some(p) => r == Some(p as usize),
                None => r is None,
            },
    {
        match tree.nodes[self.index].parent {
            Some(p) => Some(p),
            None => None,
        }
    }

    /// The node's children, uniformly: filtered real children in document
    /// order, then one pseudo-node per attribute in document order; empty
    /// for attribute and text nodes.
    pub fn children(&self, tree: &XTree) -> (r: Vec<XNode>)
        requires
            self.index < tree@.len(),
        ensures
            node_idxs(r@) == kids(tree@, self.index as int),
    {
        let ks = tree.child_list(self.index);
        let mut r: Vec<XNode> = Vec::new();
        let mut k: usize = 0;
        while k < ks.len()
            invariant
                k <= ks@.len(),
                node_idxs(r@) == idxs(ks@).take(k as int),
            decreases ks@.len() - k,
        {
            let ghost pre = r@;
            r.push(XNode { index: ks[k] });
            k += 1;
            proof {
                assert(r@ == pre.push(XNode { index: ks@[k as int - 1] }));
                assert(node_idxs(pre).len() == pre.len());
                assert(pre.len() == k as int - 1);
                assert(r@.len() == pre.len() + 1);
                assert forall|m: int| 0 <= m < k as int implies node_idxs(r@)[m] == idxs(
                    ks@,
                ).take(k as int)[m] by {
                    assert(node_idxs(r@)[m] == r@[m].index as int);
                    if m < k as int - 1 {
                        assert(r@[m] == pre[m]);
                        assert(node_idxs(pre)[m] == idxs(ks@).take(k as int - 1)[m]);
                    } else {
                        assert(r@[m].index == ks@[m]);
                        assert(idxs(ks@)[m] == ks@[m] as int);
                    }
                }
                assert(node_idxs(r@).len() == k as int);
                assert(node_idxs(r@) =~= idxs(ks@).take(k as int));
            }
        }
        proof {
            assert(idxs(ks@).take(k as int) =~= idxs(ks@));
        }
        r
    }

    /// Whether this node is an attribute pseudo-child.
    pub fn is_attribute(&self, tree: &XTree) -> (r: bool)
        requires
            self.index < tree@.len(),
        ensures
            r == (tree@[self.index as int].kind is Attribute),
    {
        tree.is_attribute(self.index)
    }

    /// Whether this node is a text node.
    pub fn is_text(&self, tree: &XTree) -> (r: bool)
        requires
            self.index < tree@.len(),
        ensures
            r == (tree@[self.index as int].kind is Text),
    {
        tree.is_text(self.index)
    }

    /// Whether this node is an element.
    pub fn is_element(&self, tree: &XTree) -> (r: bool)
        requires
            self.index < tree@.len(),
        ensures
            r == (tree@[self.index as int].kind is Element),
    {
        tree.is_element(self.index)
    }

    /// The raw, untrimmed stored value: an attribute's value or a text
    /// node's content. Elements store no value.
    pub fn value(&self, tree: &XTree) -> (r: Option<String>)
        requires
            self.index < tree@.len(),
        ensures
            match r {
                Some(v) => !(tree@[self.index as int].kind is Element) && v@ == tree@[self.index
                    as int].kind.value(),
                None => tree@[self.index as int].kind is Element,
            },
    {
        match &tree.nodes[self.index].kind {
            XNodeKind::Element { .. } => None,
            XNodeKind::Attribute { value, .. } => Some(value.clone()),
            XNodeKind::Text { value } => Some(value.clone()),
        }
    }

    /// The node's structural key.
    pub fn signature(&self, tree: &XTree) -> (r: String)
        requires
            self.index < tree@.len(),
        ensures
            r@ == sig_of(tree@[self.index as int].kind),
    {
        tree.signature(self.index)
    }
}

} // verus!
