//! The only-child and empty matchers: simple structural predicates over a
//! parent's raw child-node list.

use vstd::prelude::*;
use crate::tree::{Tree, NodeKind, valid_candidates};
use crate::nth_child::lemma_child_membership;

verus! {

/// The element children of `parent` are the candidate alone.
pub open spec fn only_child_at(t: Tree, parent: usize, e: usize) -> bool {
    t.element_children(parent as int) =~= seq![e]
}

/// The candidate's parent exists and has exactly one element-kind child:
/// the candidate itself.
pub open spec fn only_child_matches(t: Tree, e: usize) -> bool {
    match t.parent_of(e as int) {
        Some(p) => only_child_at(t, p, e),
        None => false,
    }
}

/// `only_child_matches` as a filter predicate.
pub open spec fn only_child_pred(t: Tree) -> spec_fn(usize) -> bool {
    |e: usize| only_child_matches(t, e)
}

/// The element has no child nodes, or only comment-kind ones; any text or
/// element child disqualifies it.
pub open spec fn empty_matches(t: Tree, e: usize) -> bool {
    forall|j: int|
        0 <= j < t.child_nodes_of(e as int).len() ==> t.kind_of(
            #[trigger] t.child_nodes_of(e as int)[j] as int,
        ) == NodeKind::Comment
}

/// Counts element-kind nodes in the parent's raw child-node list,
/// short-circuiting once a second one is found.
fn has_single_element_child(t: &Tree, p: usize) -> (b: bool)
    requires
        t.wf(),
        (p as int) < t.len(),
    ensures
        b == (t.element_children(p as int).len() == 1),
{
    proof {
        assert(t.wf_node(p as int));
    }
    let ghost full = t.child_nodes_of(p as int);
    let n = t.child_nodes_length(p);
    let mut count: usize = 0;
    let mut j: usize = 0;
    while j < n && count < 2
        invariant
            t.wf(),
            (p as int) < t.len(),
            full == t.child_nodes_of(p as int),
            n == full.len(),
            j <= n,
            count <= 2,
            count < 2 ==> count == full.take(j as int).filter(t.element_pred()).len(),
            count == 2 ==> full.take(j as int).filter(t.element_pred()).len() >= 2,
        decreases n - j,
    {
        proof {
            assert(t.wf_node(p as int));
            assert(full.take(j as int + 1) =~= full.take(j as int).push(full[j as int]));
            full.take(j as int).lemma_filter_push(full[j as int], t.element_pred());
        }
        let c = t.child_node(p, j);
        if matches!(t.kind(c), NodeKind::Element) {
            count = count + 1;
        }
        j = j + 1;
    }
    proof {
        if count < 2 {
            assert(full.take(n as int) =~= full);
        } else {
            // an early stop: the prefix already holds two element children,
            // and the whole list holds at least as many
            crate::tree::lemma_filter_concat(full, 0, j as int, n as int, t.element_pred());
            assert(full.subrange(0, j as int) =~= full.take(j as int));
            assert(full.subrange(0, n as int) =~= full);
        }
    }
    count == 1
}

/// Bulk mode for `only-child`: keeps, in document order, exactly the
/// candidates whose parent has exactly one element-kind child.
pub fn only_child_filter(t: &Tree, eles: &Vec<usize>) -> (result: Vec<usize>)
    requires
        t.wf(),
        valid_candidates(*t, eles@),
    ensures
        result@ == eles@.filter(only_child_pred(*t)),
{
    let ghost pred = only_child_pred(*t);
    let len = eles.len();
    let mut result: Vec<usize> = Vec::new();
    let mut i: usize = 0;
    proof {
        assert(eles@.take(0) =~= Seq::<usize>::empty());
        assert(Seq::<usize>::empty().filter(pred) =~= Seq::<usize>::empty()) by {
            Seq::<usize>::empty().lemma_filter_len(pred);
        }
    }
    while i < len
        invariant
            t.wf(),
            valid_candidates(*t, eles@),
            len == eles@.len(),
            i <= len,
            pred == only_child_pred(*t),
            result@ == eles@.take(i as int).filter(pred),
        decreases len - i,
    {
        let e = eles[i];
        proof {
            assert(eles@.take(i as int + 1) =~= eles@.take(i as int).push(e));
            eles@.take(i as int).lemma_filter_push(e, pred);
        }
        match t.parent(e) {
            Some(p) => {
                proof {
                    lemma_child_membership(*t, p, e);
                }
                let single = has_single_element_child(t, p);
                proof {
                    let cs = t.element_children(p as int);
                    if single {
                        assert(cs.contains(e));
                        let w = choose|w: int| 0 <= w < cs.len() && cs[w] == e;
                        assert(cs =~= seq![e]);
                        assert(only_child_at(*t, p, e));
                        assert(pred(e));
                    } else {
                        if pred(e) {
                            assert(cs =~= seq![e]);
                            assert(cs.len() == 1);
                        }
                    }
                }
                if single {
                    result.push(e);
                }
            },
            None => {
                proof {
                    assert(!pred(e));
                }
            },
        }
        i = i + 1;
    }
    proof {
        assert(eles@.take(len as int) =~= eles@);
    }
    result
}

/// Specified mode for `empty`: true when the element's only child nodes are
/// comments, false as soon as a text or element child is seen.
pub fn is_empty_element(t: &Tree, e: usize) -> (b: bool)
    requires
        t.wf(),
        (e as int) < t.len(),
    ensures
        b == empty_matches(*t, e),
{
    proof {
        assert(t.wf_node(e as int));
    }
    let n = t.child_nodes_length(e);
    let mut j: usize = 0;
    while j < n
        invariant
            t.wf(),
            (e as int) < t.len(),
            n == t.child_nodes_of(e as int).len(),
            j <= n,
            forall|q: int|
                0 <= q < j ==> t.kind_of(#[trigger] t.child_nodes_of(e as int)[q] as int)
                    == NodeKind::Comment,
        decreases n - j,
    {
        proof {
            assert(t.wf_node(e as int));
        }
        let c = t.child_node(e, j);
        if !matches!(t.kind(c), NodeKind::Comment) {
            return false;
        }
        j = j + 1;
    }
    true
}

} // verus!
