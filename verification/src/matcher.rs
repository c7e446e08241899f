//! Constructed matchers: the immutable predicate parameters a rule's builder
//! captures, the two evaluation strategies over them, and the law that the
//! strategies always agree.
//!
//! A matcher value holds only immutable parameters (direction, step, literal
//! offset); all per-call scratch state lives inside each invocation.

use vstd::prelude::*;
use crate::rules::RuleKind;
use crate::tree::{
    Tree,
    NodeKind,
    valid_candidates,
    lemma_filter_membership,
    lemma_filter_equivalent,
};
use crate::nth::{nth_allows, spec_offset, get_index};
use crate::nth_child::{
    dir_index,
    nth_child_at,
    nth_child_matches,
    nth_child_pred,
    first_last_at,
    first_last_matches,
    first_last_pred,
    nth_child_filter,
    first_or_last_child_filter,
    nth_child_specified,
};
use crate::of_type::{
    dir_type_pos,
    nth_of_type_at,
    nth_of_type_matches,
    nth_of_type_pred,
    first_last_of_type_at,
    first_last_of_type_matches,
    first_last_of_type_pred,
    only_of_type_matches,
    only_of_type_pred,
    nth_of_type_filter,
    first_or_last_of_type_filter,
    only_of_type_filter,
    nth_of_type_specified,
};
use crate::only::{
    empty_matches,
    only_child_matches,
    only_child_pred,
    only_child_filter,
    is_empty_element,
};

verus! {

/// A constructed matcher: which structural predicate to evaluate, with its
/// captured parameters. `step` is the nth formula's coefficient when one was
/// given; `offset` is the (normalized) literal or formula offset.
#[derive(Clone, Copy, Debug)]
pub enum Matcher {
    Empty,
    NthChild { asc: bool, step: Option<i64>, offset: i64 },
    FirstOrLastChild { asc: bool },
    NthOfType { asc: bool, step: Option<i64>, offset: i64 },
    FirstOrLastOfType { asc: bool },
    OnlyChild,
    OnlyOfType,
}

/// Whether one element satisfies the matcher's predicate.
pub open spec fn matcher_matches(t: Tree, m: Matcher, e: usize) -> bool {
    match m {
        Matcher::Empty => empty_matches(t, e),
        Matcher::NthChild { asc, step, offset } => nth_child_matches(t, asc, step, offset, e),
        Matcher::FirstOrLastChild { asc } => first_last_matches(t, asc, e),
        Matcher::NthOfType { asc, step, offset } => nth_of_type_matches(t, asc, step, offset, e),
        Matcher::FirstOrLastOfType { asc } => first_last_of_type_matches(t, asc, e),
        Matcher::OnlyChild => only_child_matches(t, e),
        Matcher::OnlyOfType => only_of_type_matches(t, e),
    }
}

/// `matcher_matches` as a filter predicate.
pub open spec fn matcher_pred(t: Tree, m: Matcher) -> spec_fn(usize) -> bool {
    |e: usize| matcher_matches(t, m, e)
}

/// Builds the matcher for one of the four nth rules from its parsed
/// parameters: the optional formula coefficient and the optional offset. A
/// rule that carries neither is a construction-time programming error and is
/// ruled out up front, as rule definitions are fixed before any query runs.
pub fn build_nth_matcher(of_type: bool, asc: bool, n: Option<i64>, index: Option<i64>) -> (m:
    Matcher)
    requires
        n.is_some() || index.is_some(),
    ensures
        m == if of_type {
            Matcher::NthOfType { asc, step: n, offset: spec_offset(index) }
        } else {
            Matcher::NthChild { asc, step: n, offset: spec_offset(index) }
        },
{
    let offset: i64 = if n.is_none() {
        // no formula: the literal offset must have been captured
        get_index(&index)
    } else {
        match index {
            Some(v) => v,
            None => 0,
        }
    };
    if of_type {
        Matcher::NthOfType { asc, step: n, offset }
    } else {
        Matcher::NthChild { asc, step: n, offset }
    }
}

/// The matcher a rule's builder constructs from the parsed parameters, if
/// the rule evaluates a structural predicate of its own: negation,
/// free-text search and aliases delegate to the outer engine and build
/// none.
pub open spec fn spec_build_matcher(kind: RuleKind, n: Option<i64>, index: Option<i64>) -> Option<
    Matcher,
> {
    match kind {
        RuleKind::Empty => Some(Matcher::Empty),
        RuleKind::NthChild { asc } => Some(
            Matcher::NthChild { asc, step: n, offset: spec_offset(index) },
        ),
        RuleKind::FirstOrLastChild { asc } => Some(Matcher::FirstOrLastChild { asc }),
        RuleKind::NthOfType { asc } => Some(
            Matcher::NthOfType { asc, step: n, offset: spec_offset(index) },
        ),
        RuleKind::FirstOrLastOfType { asc } => Some(Matcher::FirstOrLastOfType { asc }),
        RuleKind::OnlyChild => Some(Matcher::OnlyChild),
        RuleKind::OnlyOfType => Some(Matcher::OnlyOfType),
        RuleKind::Not => None,
        RuleKind::Contains => None,
        RuleKind::Alias => None,
    }
}

/// Runs a registered rule's builder: from the rule's matcher family and the
/// parsed nth parameters to the constructed matcher.
pub fn build_matcher(kind: RuleKind, n: Option<i64>, index: Option<i64>) -> (m: Option<Matcher>)
    requires
        (kind matches RuleKind::NthChild { .. } || kind matches RuleKind::NthOfType { .. })
            ==> n.is_some() || index.is_some(),
    ensures
        m == spec_build_matcher(kind, n, index),
{
    match kind {
        RuleKind::Empty => Some(Matcher::Empty),
        RuleKind::NthChild { asc } => Some(build_nth_matcher(false, asc, n, index)),
        RuleKind::FirstOrLastChild { asc } => Some(Matcher::FirstOrLastChild { asc }),
        RuleKind::NthOfType { asc } => Some(build_nth_matcher(true, asc, n, index)),
        RuleKind::FirstOrLastOfType { asc } => Some(Matcher::FirstOrLastOfType { asc }),
        RuleKind::OnlyChild => Some(Matcher::OnlyChild),
        RuleKind::OnlyOfType => Some(Matcher::OnlyOfType),
        RuleKind::Not => None,
        RuleKind::Contains => None,
        RuleKind::Alias => None,
    }
}

/// Bulk mode: filters an entire document-order-sorted candidate sequence,
/// returning, in document order, exactly the candidates the matcher's
/// predicate selects.
pub fn matcher_all(t: &Tree, m: &Matcher, eles: &Vec<usize>) -> (result: Vec<usize>)
    requires
        t.wf(),
        valid_candidates(*t, eles@),
    ensures
        result@ == eles@.filter(matcher_pred(*t, *m)),
{
    let ghost pred = matcher_pred(*t, *m);
    match m {
        Matcher::Empty => {
            let len = eles.len();
            let mut result: Vec<usize> = Vec::new();
            let mut i: usize = 0;
            proof {
                assert(eles@.take(0) =~= Seq::<usize>::empty());
                assert(Seq::<usize>::empty().filter(pred) =~= Seq::<usize>::empty()) by {
                    Seq::<usize>::empty().lemma_filter_len(pred);
                }
            }
            while i < len
                invariant
                    t.wf(),
                    valid_candidates(*t, eles@),
                    len == eles@.len(),
                    i <= len,
                    pred == matcher_pred(*t, Matcher::Empty),
                    result@ == eles@.take(i as int).filter(pred),
                decreases len - i,
            {
                let e = eles[i];
                proof {
                    assert(eles@.take(i as int + 1) =~= eles@.take(i as int).push(e));
                    eles@.take(i as int).lemma_filter_push(e, pred);
                }
                if is_empty_element(t, e) {
                    result.push(e);
                }
                i = i + 1;
            }
            proof {
                assert(eles@.take(len as int) =~= eles@);
            }
            result
        },
        Matcher::NthChild { asc, step, offset } => {
            let r = nth_child_filter(t, eles, *asc, *step, Some(*offset));
            proof {
                let p2 = nth_child_pred(*t, *asc, *step, *offset);
                assert forall|i: int| 0 <= i < eles@.len() implies (pred(#[trigger] eles@[i])
                    <==> p2(eles@[i])) by {}
                lemma_filter_equivalent(eles@, pred, p2);
            }
            r
        },
        Matcher::FirstOrLastChild { asc } => {
            let r = first_or_last_child_filter(t, eles, *asc);
            proof {
                let p2 = first_last_pred(*t, *asc);
                assert forall|i: int| 0 <= i < eles@.len() implies (pred(#[trigger] eles@[i])
                    <==> p2(eles@[i])) by {}
                lemma_filter_equivalent(eles@, pred, p2);
            }
            r
        },
        Matcher::NthOfType { asc, step, offset } => {
            let r = nth_of_type_filter(t, eles, *asc, *step, Some(*offset));
            proof {
                let p2 = nth_of_type_pred(*t, *asc, *step, *offset);
                assert forall|i: int| 0 <= i < eles@.len() implies (pred(#[trigger] eles@[i])
                    <==> p2(eles@[i])) by {}
                lemma_filter_equivalent(eles@, pred, p2);
            }
            r
        },
        Matcher::FirstOrLastOfType { asc } => {
            let r = first_or_last_of_type_filter(t, eles, *asc);
            proof {
                let p2 = first_last_of_type_pred(*t, *asc);
                assert forall|i: int| 0 <= i < eles@.len() implies (pred(#[trigger] eles@[i])
                    <==> p2(eles@[i])) by {}
                lemma_filter_equivalent(eles@, pred, p2);
            }
            r
        },
        Matcher::OnlyChild => {
            let r = only_child_filter(t, eles);
            proof {
                let p2 = only_child_pred(*t);
                assert forall|i: int| 0 <= i < eles@.len() implies (pred(#[trigger] eles@[i])
                    <==> p2(eles@[i])) by {}
                lemma_filter_equivalent(eles@, pred, p2);
            }
            r
        },
        Matcher::OnlyOfType => {
            let r = only_of_type_filter(t, eles);
            proof {
                let p2 = only_of_type_pred(*t);
                assert forall|i: int| 0 <= i < eles@.len() implies (pred(#[trigger] eles@[i])
                    <==> p2(eles@[i])) by {}
                lemma_filter_equivalent(eles@, pred, p2);
            }
            r
        },
    }
}

/// Evaluates the matcher on one element through the bulk machinery, over the
/// singleton candidate sequence holding that element alone.
fn matcher_single_via_bulk(t: &Tree, m: &Matcher, e: usize) -> (b: bool)
    requires
        t.wf(),
        (e as int) < t.len(),
        t.kind_of(e as int) == NodeKind::Element,
    ensures
        b == matcher_matches(*t, *m, e),
{
    let ghost pred = matcher_pred(*t, *m);
    let mut v: Vec<usize> = Vec::new();
    v.push(e);
    proof {
        assert(v@ =~= Seq::<usize>::empty().push(e));
        assert(valid_candidates(*t, v@));
        Seq::<usize>::empty().lemma_filter_push(e, pred);
        assert(Seq::<usize>::empty().filter(pred) =~= Seq::<usize>::empty()) by {
            Seq::<usize>::empty().lemma_filter_len(pred);
        }
    }
    let r = matcher_all(t, m, &v);
    r.len() > 0
}

/// Specified mode with bulk fallback: tests one known element. Predicates
/// with a literal offset walk the element's own sibling list with an early
/// stop; an nth rule carrying a general step formula falls back to bulk-mode
/// semantics applied to the singleton candidate sequence.
pub fn matcher_single(t: &Tree, m: &Matcher, e: usize) -> (b: bool)
    requires
        t.wf(),
        (e as int) < t.len(),
        t.kind_of(e as int) == NodeKind::Element,
    ensures
        b == matcher_matches(*t, *m, e),
{
    match m {
        Matcher::Empty => is_empty_element(t, e),
        Matcher::NthChild { asc, step, offset } => {
            if step.is_none() {
                match t.parent(e) {
                    Some(p) => {
                        proof {
                            crate::nth_child::lemma_child_membership(*t, p, e);
                        }
                        let b = nth_child_specified(t, p, *asc, *offset, e);
                        proof {
                            let cs = t.element_children(p as int);
                            if b {
                                let j = choose|j: int|
                                    0 <= j < cs.len() && cs[j] == e && *offset == dir_index(
                                        cs.len(),
                                        *asc,
                                        j,
                                    ) + 1;
                                assert(nth_allows(*step, *offset, dir_index(cs.len(), *asc, j) as nat));
                                assert(0 <= j < cs.len() && cs[j] == e && nth_allows(
                                    *step,
                                    *offset,
                                    dir_index(cs.len(), *asc, j) as nat,
                                ));
                                assert(nth_child_at(*t, p, *asc, *step, *offset, e));
                            } else {
                                if nth_child_at(*t, p, *asc, *step, *offset, e) {
                                    let j = choose|j: int|
                                        0 <= j < cs.len() && cs[j] == e && nth_allows(
                                            *step,
                                            *offset,
                                            dir_index(cs.len(), *asc, j) as nat,
                                        );
                                    assert(*offset == dir_index(cs.len(), *asc, j) + 1);
                                    assert(0 <= j < cs.len() && cs[j] == e && *offset == dir_index(
                                        cs.len(),
                                        *asc,
                                        j,
                                    ) + 1);
                                    assert(false);
                                }
                            }
                        }
                        b
                    },
                    None => false,
                }
            } else {
                matcher_single_via_bulk(t, m, e)
            }
        },
        Matcher::FirstOrLastChild { asc } => {
            match t.parent(e) {
                Some(p) => {
                    proof {
                        crate::nth_child::lemma_child_membership(*t, p, e);
                    }
                    let b = nth_child_specified(t, p, *asc, 1, e);
                    proof {
                        let cs = t.element_children(p as int);
                        if b {
                            let j = choose|j: int|
                                0 <= j < cs.len() && cs[j] == e && 1 == dir_index(
                                    cs.len(),
                                    *asc,
                                    j,
                                ) + 1;
                            assert(0 <= j < cs.len() && cs[j] == e && dir_index(cs.len(), *asc, j)
                                == 0);
                            assert(first_last_at(*t, p, *asc, e));
                        } else {
                            if first_last_at(*t, p, *asc, e) {
                                let j = choose|j: int|
                                    0 <= j < cs.len() && cs[j] == e && dir_index(cs.len(), *asc, j)
                                        == 0;
                                assert(0 <= j < cs.len() && cs[j] == e && 1i64 == dir_index(
                                    cs.len(),
                                    *asc,
                                    j,
                                ) + 1);
                                assert(false);
                            }
                        }
                    }
                    b
                },
                None => false,
            }
        },
        Matcher::NthOfType { asc, step, offset } => {
            if step.is_none() {
                match t.parent(e) {
                    Some(p) => {
                        proof {
                            crate::nth_child::lemma_child_membership(*t, p, e);
                        }
                        let b = nth_of_type_specified(t, p, *asc, *offset, e);
                        proof {
                            let cs = t.element_children(p as int);
                            if b {
                                let j = choose|j: int|
                                    0 <= j < cs.len() && cs[j] == e && *offset == dir_type_pos(
                                        *t,
                                        cs,
                                        *asc,
                                        j,
                                    ) + 1;
                                crate::of_type::lemma_dir_type_pos_range(*t, cs, *asc, j);
                                assert(nth_allows(
                                    *step,
                                    *offset,
                                    dir_type_pos(*t, cs, *asc, j) as nat,
                                ));
                                assert(0 <= j < cs.len() && cs[j] == e && nth_allows(
                                    *step,
                                    *offset,
                                    dir_type_pos(*t, cs, *asc, j) as nat,
                                ));
                                assert(nth_of_type_at(*t, p, *asc, *step, *offset, e));
                            } else {
                                if nth_of_type_at(*t, p, *asc, *step, *offset, e) {
                                    let j = choose|j: int|
                                        0 <= j < cs.len() && cs[j] == e && nth_allows(
                                            *step,
                                            *offset,
                                            dir_type_pos(*t, cs, *asc, j) as nat,
                                        );
                                    crate::of_type::lemma_dir_type_pos_range(*t, cs, *asc, j);
                                    assert(*offset == dir_type_pos(*t, cs, *asc, j) + 1);
                                    assert(0 <= j < cs.len() && cs[j] == e && *offset
                                        == dir_type_pos(*t, cs, *asc, j) + 1);
                                    assert(false);
                                }
                            }
                        }
                        b
                    },
                    None => false,
                }
            } else {
                matcher_single_via_bulk(t, m, e)
            }
        },
        Matcher::FirstOrLastOfType { asc } => {
            match t.parent(e) {
                Some(p) => {
                    proof {
                        crate::nth_child::lemma_child_membership(*t, p, e);
                    }
                    let b = nth_of_type_specified(t, p, *asc, 1, e);
                    proof {
                        let cs = t.element_children(p as int);
                        if b {
                            let j = choose|j: int|
                                0 <= j < cs.len() && cs[j] == e && 1 == dir_type_pos(
                                    *t,
                                    cs,
                                    *asc,
                                    j,
                                ) + 1;
                            assert(0 <= j < cs.len() && cs[j] == e && dir_type_pos(
                                *t,
                                cs,
                                *asc,
                                j,
                            ) == 0);
                            assert(first_last_of_type_at(*t, p, *asc, e));
                        } else {
                            if first_last_of_type_at(*t, p, *asc, e) {
                                let j = choose|j: int|
                                    0 <= j < cs.len() && cs[j] == e && dir_type_pos(
                                        *t,
                                        cs,
                                        *asc,
                                        j,
                                    ) == 0;
                                assert(0 <= j < cs.len() && cs[j] == e && 1i64 == dir_type_pos(
                                    *t,
                                    cs,
                                    *asc,
                                    j,
                                ) + 1);
                                assert(false);
                            }
                        }
                    }
                    b
                },
                None => false,
            }
        },
        Matcher::OnlyChild => matcher_single_via_bulk(t, m, e),
        Matcher::OnlyOfType => matcher_single_via_bulk(t, m, e),
    }
}

/// The agreement law: for every matcher and every element, specified-mode
/// single-element evaluation equals membership of that element in the
/// bulk-mode filtered result over any candidate sequence containing it.
pub proof fn lemma_specified_agrees_with_bulk(t: Tree, m: Matcher, eles: Seq<usize>, e: usize)
    requires
        eles.contains(e),
    ensures
        eles.filter(matcher_pred(t, m)).contains(e) <==> matcher_matches(t, m, e),
{
    lemma_filter_membership(eles, matcher_pred(t, m), e);
    assert(matcher_pred(t, m)(e) == matcher_matches(t, m, e));
}

} // verus!
