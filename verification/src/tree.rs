//! The document tree model: a stable node store addressed by index.
//!
//! Nodes are held in document order, so a node's id (its position in the
//! store) is also its document-order position. Parent/child relations are
//! resolved through the store as indices, never as owning pointers. Tag
//! names are interned to integer ids by the document collaborator that owns
//! the textual names.

use vstd::prelude::*;

verus! {

/// The kind of a tree node.
#[derive(Clone, Copy, PartialEq, Eq, Structural, Debug)]
pub enum NodeKind {
    Element,
    Text,
    Comment,
}

/// One node of the document tree.
pub struct Node {
    /// What kind of node this is.
    pub kind: NodeKind,
    /// Interned tag name; meaningful for `Element` nodes only.
    pub tag: u64,
    /// The id of the immediate parent, if any.
    pub parent: Option<usize>,
    /// Ids of the child nodes of every kind, in document order.
    pub child_nodes: Vec<usize>,
}

/// The node store. A node's id is its index here, and ids increase in
/// document order.
pub struct Tree {
    pub nodes: Vec<Node>,
}

/// A sequence of indices is strictly ascending.
pub open spec fn sorted_strict(s: Seq<usize>) -> bool {
    forall|i: int, j: int| 0 <= i < j < s.len() ==> s[i] < s[j]
}

impl Tree {
    /// How many nodes the store holds.
    pub open spec fn len(self) -> nat {
        self.nodes@.len()
    }

    pub open spec fn kind_of(self, i: int) -> NodeKind {
        self.nodes@[i].kind
    }

    pub open spec fn tag_of(self, i: int) -> u64 {
        self.nodes@[i].tag
    }

    pub open spec fn parent_of(self, i: int) -> Option<usize> {
        self.nodes@[i].parent
    }

    /// The raw child-node list (all kinds), in document order.
    pub open spec fn child_nodes_of(self, i: int) -> Seq<usize> {
        self.nodes@[i].child_nodes@
    }

    /// Holds of the ids of element-kind nodes.
    pub open spec fn element_pred(self) -> spec_fn(usize) -> bool {
        |c: usize| self.kind_of(c as int) == NodeKind::Element
    }

    /// The ordered element-only children of node `p`.
    pub open spec fn element_children(self, p: int) -> Seq<usize> {
        self.child_nodes_of(p).filter(self.element_pred())
    }

    /// One node's local well-formedness: children are in bounds, strictly
    /// ascending (document order), come after their parent, and point back to
    /// it; a parent pointer leads to an earlier node whose child list holds
    /// this node.
    pub open spec fn wf_node(self, i: int) -> bool {
        let cs = self.child_nodes_of(i);
        &&& forall|j: int, k: int| 0 <= j < k < cs.len() ==> cs[j] < cs[k]
        &&& forall|j: int|
            0 <= j < cs.len() ==> i < #[trigger] cs[j] < self.len() && self.parent_of(
                cs[j] as int,
            ) == Some(i as usize)
        &&& match self.parent_of(i) {
            Some(p) => (p as int) < i && self.child_nodes_of(p as int).contains(i as usize),
            None => true,
        }
    }

    /// The whole store is well formed.
    pub open spec fn wf(self) -> bool {
        forall|i: int| 0 <= i < self.len() ==> #[trigger] self.wf_node(i)
    }

    pub fn node_count(&self) -> (n: usize)
        ensures
            n == self.len(),
    {
        self.nodes.len()
    }

    pub fn kind(&self, i: usize) -> (k: NodeKind)
        requires
            i < self.len(),
        ensures
            k == self.kind_of(i as int),
    {
        self.nodes[i].kind
    }

    pub fn tag(&self, i: usize) -> (g: u64)
        requires
            i < self.len(),
        ensures
            g == self.tag_of(i as int),
    {
        self.nodes[i].tag
    }

    pub fn parent(&self, i: usize) -> (p: Option<usize>)
        requires
            i < self.len(),
        ensures
            p == self.parent_of(i as int),
    {
        self.nodes[i].parent
    }

    pub fn child_nodes_length(&self, i: usize) -> (n: usize)
        requires
            i < self.len(),
        ensures
            n == self.child_nodes_of(i as int).len(),
    {
        self.nodes[i].child_nodes.len()
    }

    pub fn child_node(&self, i: usize, j: usize) -> (c: usize)
        requires
            i < self.len(),
            j < self.child_nodes_of(i as int).len(),
        ensures
            c == self.child_nodes_of(i as int)[j as int],
    {
        self.nodes[i].child_nodes[j]
    }

    /// The ordered element-only children of node `p`, derived from the raw
    /// child-node list.
    pub fn children(&self, p: usize) -> (cs: Vec<usize>)
        requires
            self.wf(),
            p < self.len(),
        ensures
            cs@ == self.element_children(p as int),
    {
        proof {
            assert(self.wf_node(p as int));
        }
        let raw_len = self.child_nodes_length(p);
        let mut cs: Vec<usize> = Vec::new();
        let mut j: usize = 0;
        while j < raw_len
            invariant
                self.wf(),
                p < self.len(),
                raw_len == self.child_nodes_of(p as int).len(),
                j <= raw_len,
                cs@ == self.child_nodes_of(p as int).take(j as int).filter(self.element_pred()),
            decreases raw_len - j,
        {
            proof {
                assert(self.wf_node(p as int));
                let full = self.child_nodes_of(p as int);
                assert(full.take(j as int + 1) =~= full.take(j as int).push(full[j as int]));
                full.take(j as int).lemma_filter_push(full[j as int], self.element_pred());
            }
            let c = self.child_node(p, j);
            if matches!(self.kind(c), NodeKind::Element) {
                cs.push(c);
            }
            j = j + 1;
        }
        proof {
            assert(self.child_nodes_of(p as int).take(raw_len as int) =~= self.child_nodes_of(
                p as int,
            ));
        }
        cs
    }
}

/// Candidate sequences handed to the bulk matchers: element ids, in bounds,
/// sorted by document order with no duplicates.
pub open spec fn valid_candidates(t: Tree, eles: Seq<usize>) -> bool {
    &&& forall|i: int|
        0 <= i < eles.len() ==> (#[trigger] eles[i] as int) < t.len() && t.kind_of(
            eles[i] as int,
        ) == NodeKind::Element
    &&& sorted_strict(eles)
}

/// In a strictly ascending sequence, equal values sit at equal indices.
pub proof fn lemma_sorted_strict_injective(s: Seq<usize>, i: int, j: int)
    requires
        sorted_strict(s),
        0 <= i < s.len(),
        0 <= j < s.len(),
        s[i] == s[j],
    ensures
        i == j,
{
}

/// Filtering keeps a strictly ascending sequence strictly ascending.
pub proof fn lemma_filter_sorted_strict(s: Seq<usize>, pred: spec_fn(usize) -> bool)
    requires
        sorted_strict(s),
    ensures
        sorted_strict(s.filter(pred)),
    decreases s.len(),
{
    broadcast use vstd::seq_lib::group_filter_ensures;

    if s.len() > 0 {
        let d = s.drop_last();
        assert(sorted_strict(d)) by {
            assert forall|i: int, j: int| 0 <= i < j < d.len() implies d[i] < d[j] by {
                assert(s[i] == d[i] && s[j] == d[j]);
            }
        }
        lemma_filter_sorted_strict(d, pred);
        reveal(Seq::filter);
        if pred(s.last()) {
            let f = s.filter(pred);
            let fd = d.filter(pred);
            assert(f =~= fd.push(s.last()));
            assert forall|i: int, j: int| 0 <= i < j < f.len() implies f[i] < f[j] by {
                if j < fd.len() {
                    assert(f[i] == fd[i] && f[j] == fd[j]);
                } else {
                    assert(f[j] == s.last());
                    assert(f[i] == fd[i]);
                    assert(d.contains(fd[i])) by {
                        d.lemma_filter_contains_rev(pred, fd[i]);
                    }
                    let k = choose|k: int| 0 <= k < d.len() && d[k] == fd[i];
                    assert(s[k] == fd[i] && k < s.len() - 1);
                    assert(s[k] < s[s.len() - 1]);
                }
            }
        }
    }
}

/// An element stands in a filtered sequence exactly when it stands in the
/// unfiltered one and satisfies the predicate.
pub proof fn lemma_filter_membership(s: Seq<usize>, pred: spec_fn(usize) -> bool, x: usize)
    ensures
        s.filter(pred).contains(x) <==> s.contains(x) && pred(x),
{
    broadcast use vstd::seq_lib::group_filter_ensures;

    if s.filter(pred).contains(x) {
        let i = choose|i: int| 0 <= i < s.filter(pred).len() && s.filter(pred)[i] == x;
        assert(pred(s.filter(pred)[i]));
        s.lemma_filter_contains_rev(pred, x);
    }
    if s.contains(x) && pred(x) {
        let i = choose|i: int| 0 <= i < s.len() && s[i] == x;
        assert(s.filter(pred).contains(s[i]));
    }
}

/// Two predicates that agree on a sequence's entries filter it alike.
pub proof fn lemma_filter_equivalent(
    s: Seq<usize>,
    p1: spec_fn(usize) -> bool,
    p2: spec_fn(usize) -> bool,
)
    requires
        forall|i: int| 0 <= i < s.len() ==> (p1(#[trigger] s[i]) <==> p2(s[i])),
    ensures
        s.filter(p1) == s.filter(p2),
    decreases s.len(),
{
    reveal(Seq::filter);
    if s.len() > 0 {
        let d = s.drop_last();
        assert(forall|i: int| 0 <= i < d.len() ==> #[trigger] d[i] == s[i]);
        lemma_filter_equivalent(d, p1, p2);
        assert(s.last() == s[s.len() - 1]);
    }
}

/// Filtering a range splits at any interior point.
pub proof fn lemma_filter_concat(s: Seq<usize>, a: int, b: int, c: int, pred: spec_fn(usize) -> bool)
    requires
        0 <= a <= b <= c <= s.len(),
    ensures
        s.subrange(a, c).filter(pred) == s.subrange(a, b).filter(pred) + s.subrange(b, c).filter(
            pred,
        ),
{
    assert(s.subrange(a, c) =~= s.subrange(a, b) + s.subrange(b, c));
    Seq::filter_distributes_over_add(s.subrange(a, b), s.subrange(b, c), pred);
}

/// A sequence none of whose entries satisfies the predicate filters to empty.
pub proof fn lemma_filter_none(s: Seq<usize>, pred: spec_fn(usize) -> bool)
    requires
        forall|i: int| 0 <= i < s.len() ==> !pred(#[trigger] s[i]),
    ensures
        s.filter(pred) == Seq::<usize>::empty(),
    decreases s.len(),
{
    reveal(Seq::filter);
    if s.len() > 0 {
        let d = s.drop_last();
        assert(forall|i: int| 0 <= i < d.len() ==> #[trigger] d[i] == s[i]);
        lemma_filter_none(d, pred);
        assert(!pred(s.last()));
    }
}

} // verus!
