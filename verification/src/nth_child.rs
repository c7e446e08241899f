//! The nth-child matcher: selects candidates occupying allowed sibling
//! positions counted over all element children of a parent, ascending from
//! the first child or descending from the last one.

use vstd::prelude::*;
use crate::tree::{
    Tree,
    NodeKind,
    sorted_strict,
    valid_candidates,
    lemma_sorted_strict_injective,
    lemma_filter_sorted_strict,
    lemma_filter_membership,
    lemma_filter_equivalent,
};
use crate::group::{SiblingGroup, group_ok, groups_ok, group_siblings};
use crate::nth::{
    nth_allows,
    spec_offset,
    get_allowed_indexs,
    allow_contains,
    allow_has,
    lemma_allow_has_contains,
};

verus! {

/// A zero-based sibling position read in the chosen direction: the position
/// itself when ascending, the position counted from the last child when
/// descending.
pub open spec fn dir_index(total: nat, asc: bool, j: int) -> int {
    if asc {
        j
    } else {
        total - 1 - j
    }
}

/// The candidate stands among the element children of `parent` at a position
/// whose direction-adjusted index is in the allowed set.
pub open spec fn pos_allow_matches(
    t: Tree,
    parent: usize,
    allow: Seq<usize>,
    asc: bool,
    e: usize,
) -> bool {
    let cs = t.element_children(parent as int);
    exists|j: int|
        0 <= j < cs.len() && cs[j] == e && allow_has(allow, dir_index(cs.len(), asc, j))
}

/// `pos_allow_matches` as a filter predicate.
pub open spec fn pos_allow_pred(t: Tree, parent: usize, allow: Seq<usize>, asc: bool) -> spec_fn(
    usize,
) -> bool {
    |e: usize| pos_allow_matches(t, parent, allow, asc, e)
}

/// The nth formula selects the candidate's direction-adjusted position among
/// the element children of `parent`.
pub open spec fn nth_child_at(
    t: Tree,
    parent: usize,
    asc: bool,
    step: Option<i64>,
    offset: i64,
    e: usize,
) -> bool {
    let cs = t.element_children(parent as int);
    exists|j: int|
        0 <= j < cs.len() && cs[j] == e && nth_allows(
            step,
            offset,
            dir_index(cs.len(), asc, j) as nat,
        )
}

/// The candidate's parent exists and the nth formula selects the candidate's
/// direction-adjusted position among that parent's element children.
pub open spec fn nth_child_matches(
    t: Tree,
    asc: bool,
    step: Option<i64>,
    offset: i64,
    e: usize,
) -> bool {
    match t.parent_of(e as int) {
        Some(p) => nth_child_at(t, p, asc, step, offset, e),
        None => false,
    }
}

/// `nth_child_matches` as a filter predicate.
pub open spec fn nth_child_pred(t: Tree, asc: bool, step: Option<i64>, offset: i64) -> spec_fn(
    usize,
) -> bool {
    |e: usize| nth_child_matches(t, asc, step, offset, e)
}

/// The candidate is the first (ascending) or last (descending) element child
/// of `parent`.
pub open spec fn first_last_at(t: Tree, parent: usize, asc: bool, e: usize) -> bool {
    let cs = t.element_children(parent as int);
    exists|j: int| 0 <= j < cs.len() && cs[j] == e && dir_index(cs.len(), asc, j) == 0
}

/// The candidate's parent exists and the candidate is that parent's first
/// (ascending) or last (descending) element child.
pub open spec fn first_last_matches(t: Tree, asc: bool, e: usize) -> bool {
    match t.parent_of(e as int) {
        Some(p) => first_last_at(t, p, asc, e),
        None => false,
    }
}

/// `first_last_matches` as a filter predicate.
pub open spec fn first_last_pred(t: Tree, asc: bool) -> spec_fn(usize) -> bool {
    |e: usize| first_last_matches(t, asc, e)
}

/// The index at which a sequence holds a value.
pub open spec fn index_in(cs: Seq<usize>, e: usize) -> int {
    choose|j: int| 0 <= j < cs.len() && cs[j] == e
}

/// A well-formed tree's element-children lists are strictly ascending, and an
/// element-kind candidate pointing at a parent stands in that parent's list.
pub proof fn lemma_child_membership(t: Tree, parent: usize, e: usize)
    requires
        t.wf(),
        (e as int) < t.len(),
        t.kind_of(e as int) == NodeKind::Element,
        t.parent_of(e as int) == Some(parent),
    ensures
        (parent as int) < t.len(),
        sorted_strict(t.element_children(parent as int)),
        t.element_children(parent as int).contains(e),
        0 <= index_in(t.element_children(parent as int), e) < t.element_children(
            parent as int,
        ).len(),
        t.element_children(parent as int)[index_in(t.element_children(parent as int), e)] == e,
{
    assert(t.wf_node(e as int));
    assert(t.wf_node(parent as int));
    lemma_filter_sorted_strict(t.child_nodes_of(parent as int), t.element_pred());
    lemma_filter_membership(t.child_nodes_of(parent as int), t.element_pred(), e);
    assert(t.element_pred()(e));
    let cs = t.element_children(parent as int);
    assert(cs.contains(e));
    let j = choose|j: int| 0 <= j < cs.len() && cs[j] == e;
    assert(cs[index_in(cs, e)] == e);
}

/// Walks one sibling group with a synchronized two-pointer alignment: the
/// group's candidates and the parent's element children are
/// scanned together in document order, and each aligned position is tested
/// against the allowed-index set by binary search. Returns, in document
/// order, exactly the group candidates whose direction-adjusted position is
/// allowed.
pub fn nth_child_handle(
    t: &Tree,
    eles: &Vec<usize>,
    start: usize,
    end: usize,
    allow: &Vec<usize>,
    childs: &Vec<usize>,
    parent: usize,
    asc: bool,
) -> (found: Vec<usize>)
    requires
        t.wf(),
        (parent as int) < t.len(),
        valid_candidates(*t, eles@),
        start <= end <= eles@.len(),
        forall|i: int|
            start <= i < end ==> t.parent_of(#[trigger] eles@[i] as int) == Some(parent),
        childs@ == t.element_children(parent as int),
        sorted_strict(allow@),
    ensures
        found@ == eles@.subrange(start as int, end as int).filter(
            pos_allow_pred(*t, parent, allow@, asc),
        ),
{
    let ghost pred = pos_allow_pred(*t, parent, allow@, asc);
    let total = childs.len();
    let mut found: Vec<usize> = Vec::new();
    let mut ci: usize = 0;
    let mut k: usize = start;
    proof {
        if start < end {
            lemma_child_membership(*t, parent, eles@[start as int]);
        }
        assert(eles@.subrange(start as int, start as int) =~= Seq::<usize>::empty());
        assert(Seq::<usize>::empty().filter(pred) =~= Seq::<usize>::empty()) by {
            Seq::<usize>::empty().lemma_filter_len(pred);
        }
    }
    while k < end
        invariant
            t.wf(),
            (parent as int) < t.len(),
            valid_candidates(*t, eles@),
            start <= k <= end <= eles@.len(),
            forall|i: int|
                start <= i < end ==> t.parent_of(#[trigger] eles@[i] as int) == Some(parent),
            childs@ == t.element_children(parent as int),
            sorted_strict(allow@),
            total == childs@.len(),
            pred == pos_allow_pred(*t, parent, allow@, asc),
            found@ == eles@.subrange(start as int, k as int).filter(pred),
            k < end ==> ci <= index_in(childs@, eles@[k as int]),
        decreases end - k,
    {
        let e = eles[k];
        proof {
            lemma_child_membership(*t, parent, e);
        }
        let ghost je = index_in(childs@, e);
        while childs[ci] != e
            invariant
                ci <= je < total,
                total == childs@.len(),
                childs@[je] == e,
            decreases je - ci,
        {
            ci = ci + 1;
        }
        proof {
            lemma_child_membership(*t, parent, e);
            lemma_sorted_strict_injective(childs@, ci as int, je);
        }
        let pos = if asc {
            ci
        } else {
            total - 1 - ci
        };
        let hit = allow_contains(allow, pos);
        proof {
            let cs = childs@;
            assert(pos == dir_index(cs.len(), asc, je as int));
            lemma_allow_has_contains(allow@, pos);
            if hit {
                assert(pred(e)) by {
                    assert(cs[je] == e && allow_has(allow@, dir_index(cs.len(), asc, je)));
                }
            } else {
                if pred(e) {
                    let j2 = choose|j2: int|
                        0 <= j2 < cs.len() && cs[j2] == e && allow_has(
                            allow@,
                            dir_index(cs.len(), asc, j2),
                        );
                    lemma_sorted_strict_injective(cs, j2, je);
                }
            }
            assert(eles@.subrange(start as int, k as int + 1) =~= eles@.subrange(
                start as int,
                k as int,
            ).push(e));
            eles@.subrange(start as int, k as int).lemma_filter_push(e, pred);
        }
        if hit {
            found.push(e);
        }
        proof {
            // the next candidate, if any, sits strictly later in the child list
            if k + 1 < end {
                lemma_child_membership(*t, parent, eles@[k as int + 1]);
                let j2 = index_in(childs@, eles@[k as int + 1]);
                assert(childs@[j2] == eles@[k as int + 1]);
                assert(eles@[k as int] < eles@[k as int + 1]);
                if j2 <= je {
                    if j2 < je {
                        assert(childs@[j2] < childs@[je]);
                    }
                    assert(false);
                }
            }
        }
        ci = ci + 1;
        k = k + 1;
    }
    found
}

/// Fetches the group parent's element children and appends the group's
/// allowed candidates to the accumulated result.
pub fn handle_nth_child(
    t: &Tree,
    eles: &Vec<usize>,
    group: &SiblingGroup,
    allow: &Vec<usize>,
    asc: bool,
    result: &mut Vec<usize>,
)
    requires
        t.wf(),
        valid_candidates(*t, eles@),
        group_ok(*t, eles@, *group),
        sorted_strict(allow@),
    ensures
        final(result)@ == old(result)@ + eles@.subrange(
            group.start as int,
            group.end as int,
        ).filter(pos_allow_pred(*t, group.parent, allow@, asc)),
{
    let childs = t.children(group.parent);
    let mut found = nth_child_handle(
        t,
        eles,
        group.start,
        group.end,
        allow,
        &childs,
        group.parent,
        asc,
    );
    result.append(&mut found);
}

/// The two spec predicates a sibling group is filtered under coincide on the
/// group's candidates once the allowed-index set resolves the nth formula
/// against the parent's child count.
proof fn lemma_group_pred_equivalent(
    t: Tree,
    eles: Seq<usize>,
    g: SiblingGroup,
    allow: Seq<usize>,
    asc: bool,
    step: Option<i64>,
    offset: i64,
)
    requires
        t.wf(),
        valid_candidates(t, eles),
        group_ok(t, eles, g),
        forall|d: int|
            0 <= d < t.element_children(g.parent as int).len() ==> (allow_has(allow, d)
                <==> nth_allows(step, offset, d as nat)),
    ensures
        eles.subrange(g.start as int, g.end as int).filter(pos_allow_pred(t, g.parent, allow, asc))
            == eles.subrange(g.start as int, g.end as int).filter(
            nth_child_pred(t, asc, step, offset),
        ),
{
    let sub = eles.subrange(g.start as int, g.end as int);
    let p1 = pos_allow_pred(t, g.parent, allow, asc);
    let p2 = nth_child_pred(t, asc, step, offset);
    let cs = t.element_children(g.parent as int);
    assert forall|q: int| 0 <= q < sub.len() implies (p1(#[trigger] sub[q]) <==> p2(sub[q])) by {
        let e = sub[q];
        assert(e == eles[g.start + q]);
        assert(t.parent_of(e as int) == Some(g.parent));
        if p1(e) {
            let j = choose|j: int|
                0 <= j < cs.len() && cs[j] == e && allow_has(allow, dir_index(cs.len(), asc, j));
            let d = dir_index(cs.len(), asc, j);
            assert(0 <= d < cs.len());
            assert(nth_allows(step, offset, d as nat));
            assert(0 <= j < cs.len() && cs[j] == e && nth_allows(
                step,
                offset,
                dir_index(cs.len(), asc, j) as nat,
            ));
            assert(nth_child_at(t, g.parent, asc, step, offset, e));
            assert(p2(e));
        }
        if p2(e) {
            assert(nth_child_at(t, g.parent, asc, step, offset, e));
            let j = choose|j: int|
                0 <= j < cs.len() && cs[j] == e && nth_allows(
                    step,
                    offset,
                    dir_index(cs.len(), asc, j) as nat,
                );
            let d = dir_index(cs.len(), asc, j);
            assert(0 <= d < cs.len());
            assert(allow_has(allow, d));
            assert(0 <= j < cs.len() && cs[j] == e && allow_has(
                allow,
                dir_index(cs.len(), asc, j),
            ));
            assert(pos_allow_matches(t, g.parent, allow, asc, e));
            assert(p1(e));
        }
    }
    lemma_filter_equivalent(sub, p1, p2);
}

/// Bulk mode for `nth-child` and `nth-last-child`: groups the candidate
/// sequence by shared parent, resolves the nth formula against each parent's
/// element-child count, and keeps, in document order, exactly the candidates
/// whose direction-adjusted sibling position the formula selects.
pub fn nth_child_filter(
    t: &Tree,
    eles: &Vec<usize>,
    asc: bool,
    step: Option<i64>,
    offset: Option<i64>,
) -> (result: Vec<usize>)
    requires
        t.wf(),
        valid_candidates(*t, eles@),
    ensures
        result@ == eles@.filter(nth_child_pred(*t, asc, step, spec_offset(offset))),
{
    let ghost gpred = nth_child_pred(*t, asc, step, spec_offset(offset));
    let groups = group_siblings(t, eles);
    let mut result: Vec<usize> = Vec::new();
    let ghost mut prev_end: int = 0;
    let mut gi: usize = 0;
    proof {
        assert(eles@.subrange(0, 0).filter(gpred) =~= Seq::<usize>::empty()) by {
            assert(eles@.subrange(0, 0) =~= Seq::<usize>::empty());
            Seq::<usize>::empty().lemma_filter_len(gpred);
        }
    }
    while gi < groups.len()
        invariant
            t.wf(),
            valid_candidates(*t, eles@),
            groups_ok(*t, eles@, groups@),
            gi <= groups@.len(),
            0 <= prev_end <= eles@.len(),
            gi == 0 ==> prev_end == 0,
            gi > 0 ==> prev_end == groups@[gi - 1].end,
            gpred == nth_child_pred(*t, asc, step, spec_offset(offset)),
            result@ == eles@.subrange(0, prev_end).filter(gpred),
        decreases groups@.len() - gi,
    {
        let g = groups[gi];
        proof {
            assert(group_ok(*t, eles@, g));
            if gi > 0 {
                assert(groups@[gi - 1].end <= groups@[gi as int].start);
            }
            assert forall|q: int|
                prev_end <= q < g.start && t.parent_of(
                    #[trigger] eles@[q] as int,
                ).is_none() implies !gpred(eles@[q]) by {}
            crate::group::lemma_gap_filter_empty(
                *t,
                eles@,
                groups@,
                gi as int,
                prev_end,
                g.start as int,
                gpred,
            );
            crate::tree::lemma_filter_concat(eles@, 0, prev_end, g.start as int, gpred);
            assert(result@ =~= eles@.subrange(0, g.start as int).filter(gpred));
        }
        let childs = t.children(g.parent);
        let allow = get_allowed_indexs(step, offset, childs.len());
        handle_nth_child(t, eles, &g, &allow, asc, &mut result);
        proof {
            lemma_group_pred_equivalent(*t, eles@, g, allow@, asc, step, spec_offset(offset));
            crate::tree::lemma_filter_concat(eles@, 0, g.start as int, g.end as int, gpred);
            prev_end = g.end as int;
            assert(result@ =~= eles@.subrange(0, prev_end).filter(gpred));
        }
        gi = gi + 1;
    }
    proof {
        assert forall|q: int|
            prev_end <= q < eles@.len() && t.parent_of(
                #[trigger] eles@[q] as int,
            ).is_none() implies !gpred(eles@[q]) by {}
        crate::group::lemma_gap_filter_empty(
            *t,
            eles@,
            groups@,
            groups@.len() as int,
            prev_end,
            eles@.len() as int,
            gpred,
        );
        crate::tree::lemma_filter_concat(eles@, 0, prev_end, eles@.len() as int, gpred);
        assert(eles@.subrange(0, eles@.len() as int) =~= eles@);
        assert(result@ =~= eles@.filter(gpred));
    }
    result
}

/// Bulk mode for `first-child` and `last-child`: like the nth-child walk,
/// with the allowed-index set pinned to the single position zero.
pub fn first_or_last_child_filter(t: &Tree, eles: &Vec<usize>, asc: bool) -> (result: Vec<usize>)
    requires
        t.wf(),
        valid_candidates(*t, eles@),
    ensures
        result@ == eles@.filter(first_last_pred(*t, asc)),
{
    let ghost gpred = first_last_pred(*t, asc);
    let mut allow: Vec<usize> = Vec::new();
    allow.push(0);
    let groups = group_siblings(t, eles);
    let mut result: Vec<usize> = Vec::new();
    let ghost mut prev_end: int = 0;
    let mut gi: usize = 0;
    proof {
        assert(eles@.subrange(0, 0).filter(gpred) =~= Seq::<usize>::empty()) by {
            assert(eles@.subrange(0, 0) =~= Seq::<usize>::empty());
            Seq::<usize>::empty().lemma_filter_len(gpred);
        }
    }
    while gi < groups.len()
        invariant
            t.wf(),
            valid_candidates(*t, eles@),
            groups_ok(*t, eles@, groups@),
            gi <= groups@.len(),
            0 <= prev_end <= eles@.len(),
            gi == 0 ==> prev_end == 0,
            gi > 0 ==> prev_end == groups@[gi - 1].end,
            gpred == first_last_pred(*t, asc),
            allow@ == seq![0usize],
            sorted_strict(allow@),
            result@ == eles@.subrange(0, prev_end).filter(gpred),
        decreases groups@.len() - gi,
    {
        let g = groups[gi];
        proof {
            assert(group_ok(*t, eles@, g));
            if gi > 0 {
                assert(groups@[gi - 1].end <= groups@[gi as int].start);
            }
            assert forall|q: int|
                prev_end <= q < g.start && t.parent_of(
                    #[trigger] eles@[q] as int,
                ).is_none() implies !gpred(eles@[q]) by {}
            crate::group::lemma_gap_filter_empty(
                *t,
                eles@,
                groups@,
                gi as int,
                prev_end,
                g.start as int,
                gpred,
            );
            crate::tree::lemma_filter_concat(eles@, 0, prev_end, g.start as int, gpred);
            assert(result@ =~= eles@.subrange(0, g.start as int).filter(gpred));
        }
        handle_nth_child(t, eles, &g, &allow, asc, &mut result);
        proof {
            let sub = eles@.subrange(g.start as int, g.end as int);
            let p1 = pos_allow_pred(*t, g.parent, allow@, asc);
            let cs = t.element_children(g.parent as int);
            assert forall|q: int| 0 <= q < sub.len() implies (p1(#[trigger] sub[q]) <==> gpred(
                sub[q],
            )) by {
                let e = sub[q];
                assert(e == eles@[g.start + q]);
                assert(t.parent_of(e as int) == Some(g.parent));
                if p1(e) {
                    let j = choose|j: int|
                        0 <= j < cs.len() && cs[j] == e && allow_has(
                            allow@,
                            dir_index(cs.len(), asc, j),
                        );
                    let d = dir_index(cs.len(), asc, j);
                    let k = choose|k: int| 0 <= k < allow@.len() && (#[trigger] allow@[k]) == d;
                    assert(allow@[k] == 0usize);
                    assert(0 <= j < cs.len() && cs[j] == e && dir_index(cs.len(), asc, j) == 0);
                    assert(first_last_at(*t, g.parent, asc, e));
                    assert(gpred(e));
                }
                if gpred(e) {
                    assert(first_last_at(*t, g.parent, asc, e));
                    let j = choose|j: int|
                        0 <= j < cs.len() && cs[j] == e && dir_index(cs.len(), asc, j) == 0;
                    assert((#[trigger] allow@[0]) == dir_index(cs.len(), asc, j));
                    assert(allow_has(allow@, dir_index(cs.len(), asc, j)));
                    assert(0 <= j < cs.len() && cs[j] == e && allow_has(
                        allow@,
                        dir_index(cs.len(), asc, j),
                    ));
                    assert(pos_allow_matches(*t, g.parent, allow@, asc, e));
                    assert(p1(e));
                }
            }
            lemma_filter_equivalent(sub, p1, gpred);
            crate::tree::lemma_filter_concat(eles@, 0, g.start as int, g.end as int, gpred);
            prev_end = g.end as int;
            assert(result@ =~= eles@.subrange(0, prev_end).filter(gpred));
        }
        gi = gi + 1;
    }
    proof {
        assert forall|q: int|
            prev_end <= q < eles@.len() && t.parent_of(
                #[trigger] eles@[q] as int,
            ).is_none() implies !gpred(eles@[q]) by {}
        crate::group::lemma_gap_filter_empty(
            *t,
            eles@,
            groups@,
            groups@.len() as int,
            prev_end,
            eles@.len() as int,
            gpred,
        );
        crate::tree::lemma_filter_concat(eles@, 0, prev_end, eles@.len() as int, gpred);
        assert(eles@.subrange(0, eles@.len() as int) =~= eles@);
        assert(result@ =~= eles@.filter(gpred));
    }
    result
}

/// Specified mode for the nth-child family with a literal one-based offset:
/// walks the parent's element children from the chosen end and stops as soon
/// as the tested element is reached, reporting whether the offset names its
/// position.
pub fn nth_child_specified(
    t: &Tree,
    parent: usize,
    asc: bool,
    index: i64,
    target: usize,
) -> (b: bool)
    requires
        t.wf(),
        (parent as int) < t.len(),
    ensures
        b == {
            let cs = t.element_children(parent as int);
            exists|j: int|
                0 <= j < cs.len() && cs[j] == target && index == dir_index(cs.len(), asc, j) + 1
        },
{
    let ghost cs = t.element_children(parent as int);
    if index < 1 {
        proof {
            if exists|j: int|
                0 <= j < cs.len() && cs[j] == target && index == dir_index(cs.len(), asc, j) + 1 {
                let j = choose|j: int|
                    0 <= j < cs.len() && cs[j] == target && index == dir_index(cs.len(), asc, j)
                        + 1;
            }
        }
        return false;
    }
    let childs = t.children(parent);
    let total = childs.len();
    proof {
        assert(t.wf_node(parent as int));
        lemma_filter_sorted_strict(t.child_nodes_of(parent as int), t.element_pred());
    }
    let mut j: usize = 0;
    while j < total
        invariant
            cs == t.element_children(parent as int),
            total == cs.len(),
            childs@ == cs,
            sorted_strict(cs),
            j <= total,
            forall|q: int| 0 <= q < j ==> cs[q] != target,
        decreases total - j,
    {
        if childs[j] == target {
            let hit = if asc {
                j
            } else {
                total - 1 - j
            };
            let matched = (hit as i128) + 1 == (index as i128);
            proof {
                assert(hit as int == dir_index(cs.len(), asc, j as int));
                if matched {
                    assert(0 <= j < cs.len() && cs[j as int] == target && index == dir_index(
                        cs.len(),
                        asc,
                        j as int,
                    ) + 1);
                } else {
                    if exists|q: int|
                        0 <= q < cs.len() && cs[q] == target && index == dir_index(cs.len(), asc, q)
                            + 1 {
                        let q = choose|q: int|
                            0 <= q < cs.len() && cs[q] == target && index == dir_index(
                                cs.len(),
                                asc,
                                q,
                            ) + 1;
                        lemma_sorted_strict_injective(cs, q, j as int);
                        assert(index == dir_index(cs.len(), asc, j as int) + 1);
                        assert(false);
                    }
                }
            }
            return matched;
        }
        j = j + 1;
    }
    proof {
        if exists|q: int|
            0 <= q < cs.len() && cs[q] == target && index == dir_index(cs.len(), asc, q) + 1 {
            let q = choose|q: int|
                0 <= q < cs.len() && cs[q] == target && index == dir_index(cs.len(), asc, q) + 1;
        }
    }
    false
}

/// The `nth-last-child(1)` formula and `last-child` select the same
/// candidates: for every element the two predicates agree, and every
/// candidate sequence filters identically under them.
pub proof fn lemma_nth_last_child_one_is_last_child(t: Tree, eles: Seq<usize>)
    ensures
        forall|e: usize|
            #[trigger] nth_child_matches(t, false, None, 1, e) == first_last_matches(t, false, e),
        eles.filter(nth_child_pred(t, false, None, 1)) == eles.filter(first_last_pred(t, false)),
{
    assert forall|e: usize|
        #[trigger] nth_child_matches(t, false, None, 1, e) == first_last_matches(
        t,
        false,
        e,
    ) by {
        match t.parent_of(e as int) {
            Some(p) => {
                let cs = t.element_children(p as int);
                if nth_child_at(t, p, false, None, 1, e) {
                    let j = choose|j: int|
                        0 <= j < cs.len() && cs[j] == e && nth_allows(
                            None,
                            1,
                            dir_index(cs.len(), false, j) as nat,
                        );
                    assert(dir_index(cs.len(), false, j) == 0);
                    assert(0 <= j < cs.len() && cs[j] == e && dir_index(cs.len(), false, j) == 0);
                    assert(first_last_at(t, p, false, e));
                }
                if first_last_at(t, p, false, e) {
                    let j = choose|j: int|
                        0 <= j < cs.len() && cs[j] == e && dir_index(cs.len(), false, j) == 0;
                    assert(nth_allows(None, 1, dir_index(cs.len(), false, j) as nat));
                    assert(0 <= j < cs.len() && cs[j] == e && nth_allows(
                        None,
                        1,
                        dir_index(cs.len(), false, j) as nat,
                    ));
                    assert(nth_child_at(t, p, false, None, 1, e));
                }
            },
            None => {},
        }
    }
    let p1 = nth_child_pred(t, false, None, 1);
    let p2 = first_last_pred(t, false);
    assert forall|i: int| 0 <= i < eles.len() implies (p1(#[trigger] eles[i]) <==> p2(
        eles[i],
    )) by {
        assert(nth_child_matches(t, false, None, 1, eles[i]) == first_last_matches(
            t,
            false,
            eles[i],
        ));
    }
    lemma_filter_equivalent(eles, p1, p2);
}

} // verus!
