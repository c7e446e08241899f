//! The sibling grouper: it partitions an ordered candidate sequence into the
//! maximal contiguous runs whose elements share an immediate parent.
//!
//! Candidates must be pre-sorted by document order for grouping to be
//! meaningful; that is the callers' documented precondition. Candidates
//! without a parent are dropped from grouping: they can never satisfy a
//! positional predicate. Contiguity, not parent identity, defines a group:
//! when a parent's elements reappear after a break, a new group starts.

use vstd::prelude::*;
use crate::tree::Tree;

verus! {

/// One maximal contiguous run of candidates sharing an immediate parent:
/// the index range `start..end` within the candidate sequence, and the
/// shared parent's id.
#[derive(Clone, Copy)]
pub struct SiblingGroup {
    pub start: usize,
    pub end: usize,
    pub parent: usize,
}

/// A group is a well-formed, left-maximal same-parent run of `eles`.
pub open spec fn group_ok(t: Tree, eles: Seq<usize>, g: SiblingGroup) -> bool {
    &&& g.start < g.end <= eles.len()
    &&& (g.parent as int) < t.len()
    &&& forall|i: int|
        g.start <= i < g.end ==> t.parent_of(#[trigger] eles[i] as int) == Some(g.parent)
    &&& (g.start == 0 || t.parent_of(eles[g.start as int - 1] as int) != Some(g.parent))
}

/// The full grouping contract: every group is a well-formed run, extended as
/// far right as it goes, the runs come in input order without overlap, and
/// together they cover exactly the candidates that have a parent.
pub open spec fn groups_ok(t: Tree, eles: Seq<usize>, groups: Seq<SiblingGroup>) -> bool {
    &&& forall|k: int| 0 <= k < groups.len() ==> group_ok(t, eles, #[trigger] groups[k])
    &&& forall|k: int|
        0 <= k < groups.len() ==> ((#[trigger] groups[k].end) == eles.len() || t.parent_of(
            eles[groups[k].end as int] as int,
        ) != Some(groups[k].parent))
    &&& forall|k1: int, k2: int|
        0 <= k1 < k2 < groups.len() ==> (#[trigger] groups[k1].end) <= (#[trigger] groups[k2].start)
    &&& forall|i: int|
        0 <= i < eles.len() && t.parent_of(#[trigger] eles[i] as int).is_some() ==> exists|k: int|
            0 <= k < groups.len() && (#[trigger] groups[k].start) <= i < groups[k].end
}

/// Emits, in input order, one entry per maximal contiguous run of candidates
/// sharing an immediate parent. The ensures clause is the grouping law: the
/// emitted runs are exactly the maximal contiguous same-parent runs, and
/// their union is the candidate index set minus the candidates with no
/// parent.
pub fn group_siblings(t: &Tree, eles: &Vec<usize>) -> (groups: Vec<SiblingGroup>)
    requires
        t.wf(),
        forall|i: int| 0 <= i < eles@.len() ==> (#[trigger] eles@[i] as int) < t.len(),
    ensures
        groups_ok(*t, eles@, groups@),
{
    let mut groups: Vec<SiblingGroup> = Vec::new();
    // the currently open run, if any; it always reaches up to the candidate
    // considered last
    let mut cur: Option<SiblingGroup> = None;
    let len = eles.len();
    let mut i: usize = 0;
    while i < len
        invariant
            t.wf(),
            len == eles@.len(),
            i <= len,
            forall|j: int| 0 <= j < eles@.len() ==> (#[trigger] eles@[j] as int) < t.len(),
            forall|k: int| 0 <= k < groups@.len() ==> group_ok(*t, eles@, #[trigger] groups@[k]),
            forall|k: int|
                0 <= k < groups@.len() ==> (#[trigger] groups@[k].end) < eles@.len() && t.parent_of(
                    eles@[groups@[k].end as int] as int,
                ) != Some(groups@[k].parent),
            forall|k1: int, k2: int|
                0 <= k1 < k2 < groups@.len() ==> (#[trigger] groups@[k1].end) <= (
                #[trigger] groups@[k2].start),
            forall|k: int| 0 <= k < groups@.len() ==> (#[trigger] groups@[k].end) <= i,
            match cur {
                Some(g) => {
                    &&& group_ok(*t, eles@, g)
                    &&& g.end == i
                    &&& forall|k: int|
                        0 <= k < groups@.len() ==> (#[trigger] groups@[k].end) <= g.start
                },
                None => i == 0 || t.parent_of(eles@[i - 1] as int).is_none(),
            },
            forall|j: int|
                0 <= j < i && t.parent_of(#[trigger] eles@[j] as int).is_some() ==> (exists|k: int|
                    0 <= k < groups@.len() && (#[trigger] groups@[k].start) <= j < groups@[k].end)
                    || (cur.is_some() && cur.unwrap().start <= j < cur.unwrap().end),
        decreases len - i,
    {
        let ghost old_groups = groups@;
        let ghost old_cur = cur;
        let e = eles[i];
        proof {
            assert(t.wf_node(e as int));
        }
        match t.parent(e) {
            Some(p) => {
                let mut extended = false;
                if let Some(g) = cur {
                    if g.parent == p {
                        cur = Some(
                            SiblingGroup { start: g.start, end: i + 1, parent: g.parent },
                        );
                        extended = true;
                    } else {
                        groups.push(g);
                        proof {
                            assert(groups@ == old_groups.push(g));
                            assert(groups@[groups@.len() - 1] == g);
                        }
                    }
                }
                if !extended {
                    cur = Some(SiblingGroup { start: i, end: i + 1, parent: p });
                }
                proof {
                    lemma_cover_step(*t, eles@, old_groups, groups@, old_cur, cur, i as int);
                    let g2 = cur.unwrap();
                    assert(g2.start < g2.end <= eles@.len());
                    assert((g2.parent as int) < t.len());
                    assert(forall|q: int|
                        g2.start <= q < g2.end ==> t.parent_of(#[trigger] eles@[q] as int) == Some(
                            g2.parent,
                        ));
                    assert((g2.start == 0 || t.parent_of(eles@[g2.start as int - 1] as int) != Some(
                        g2.parent,
                    )));
                    assert(g2.end == i + 1);
                    assert(forall|k: int|
                        0 <= k < groups@.len() ==> (#[trigger] groups@[k].end) <= g2.start);
                }
            },
            None => {
                if let Some(g) = cur {
                    groups.push(g);
                    proof {
                        assert(groups@ == old_groups.push(g));
                        assert(groups@[groups@.len() - 1] == g);
                    }
                }
                cur = None;
                proof {
                    lemma_cover_step(*t, eles@, old_groups, groups@, old_cur, cur, i as int);
                }
            },
        }
        i = i + 1;
    }
    let ghost old_groups = groups@;
    if let Some(g) = cur {
        groups.push(g);
        proof {
            assert(groups@ == old_groups.push(g));
            assert(groups@[groups@.len() - 1] == g);
            assert forall|j: int|
                0 <= j < eles@.len() && t.parent_of(#[trigger] eles@[j] as int).is_some() implies (
            exists|k: int|
                0 <= k < groups@.len() && (#[trigger] groups@[k].start) <= j < groups@[k].end) by {
                if exists|k: int|
                    0 <= k < old_groups.len() && (#[trigger] old_groups[k].start) <= j
                        < old_groups[k].end {
                    let k = choose|k: int|
                        0 <= k < old_groups.len() && (#[trigger] old_groups[k].start) <= j
                            < old_groups[k].end;
                    assert(groups@[k].start <= j < groups@[k].end);
                } else {
                    assert(groups@[groups@.len() - 1].start <= j < groups@[groups@.len() - 1].end);
                }
            }
        }
    }
    groups
}

/// Between two neighbouring runs (and before the first or after the last
/// one) every candidate is parentless, so a predicate that fails without a
/// parent filters such a stretch to nothing.
pub proof fn lemma_gap_filter_empty(
    t: Tree,
    eles: Seq<usize>,
    groups: Seq<SiblingGroup>,
    gi: int,
    lo: int,
    hi: int,
    pred: spec_fn(usize) -> bool,
)
    requires
        groups_ok(t, eles, groups),
        0 <= gi <= groups.len(),
        0 <= lo <= hi <= eles.len(),
        gi == 0 ==> lo == 0,
        gi > 0 ==> lo == groups[gi - 1].end,
        gi < groups.len() ==> hi <= groups[gi].start,
        forall|q: int|
            lo <= q < hi && t.parent_of(#[trigger] eles[q] as int).is_none() ==> !pred(eles[q]),
    ensures
        eles.subrange(lo, hi).filter(pred) == Seq::<usize>::empty(),
{
    assert forall|q: int| lo <= q < hi implies t.parent_of(#[trigger] eles[q] as int).is_none() by {
        if t.parent_of(eles[q] as int).is_some() {
            let k = choose|k: int|
                0 <= k < groups.len() && (#[trigger] groups[k].start) <= q < groups[k].end;
            assert(group_ok(t, eles, groups[k]));
            if k < gi {
                if k < gi - 1 {
                    assert(groups[k].end <= groups[gi - 1].start);
                    assert(group_ok(t, eles, groups[gi - 1]));
                }
                assert(groups[k].end <= lo);
                assert(false);
            } else {
                if k > gi {
                    assert(groups[gi].end <= groups[k].start);
                    assert(group_ok(t, eles, groups[gi]));
                }
                assert(groups[k].start >= hi);
                assert(false);
            }
        }
    }
    let sub = eles.subrange(lo, hi);
    assert forall|q: int| 0 <= q < sub.len() implies !pred(#[trigger] sub[q]) by {
        assert(sub[q] == eles[lo + q]);
    }
    crate::tree::lemma_filter_none(sub, pred);
}

/// Transfers the coverage invariant across one grouping step: whatever the
/// closed groups or the open run covered before still is covered, and the
/// candidate just considered is covered when it has a parent.
proof fn lemma_cover_step(
    t: Tree,
    eles: Seq<usize>,
    old_groups: Seq<SiblingGroup>,
    new_groups: Seq<SiblingGroup>,
    old_cur: Option<SiblingGroup>,
    new_cur: Option<SiblingGroup>,
    i: int,
)
    requires
        0 <= i < eles.len(),
        new_groups == old_groups || (old_cur.is_some() && new_groups == old_groups.push(
            old_cur.unwrap(),
        )),
        forall|j: int|
            0 <= j < i && t.parent_of(#[trigger] eles[j] as int).is_some() ==> (exists|k: int|
                0 <= k < old_groups.len() && (#[trigger] old_groups[k].start) <= j
                    < old_groups[k].end) || (old_cur.is_some() && old_cur.unwrap().start <= j
                < old_cur.unwrap().end),
        // where the open run was not pushed, the new open run still covers it
        new_groups == old_groups && old_cur.is_some() ==> new_cur.is_some()
            && new_cur.unwrap().start <= old_cur.unwrap().start && old_cur.unwrap().end
            <= new_cur.unwrap().end,
        // the candidate just considered is covered when it has a parent
        t.parent_of(eles[i] as int).is_some() ==> new_cur.is_some() && new_cur.unwrap().start <= i
            < new_cur.unwrap().end,
    ensures
        forall|j: int|
            0 <= j < i + 1 && t.parent_of(#[trigger] eles[j] as int).is_some() ==> (exists|k: int|
                0 <= k < new_groups.len() && (#[trigger] new_groups[k].start) <= j
                    < new_groups[k].end) || (new_cur.is_some() && new_cur.unwrap().start <= j
                < new_cur.unwrap().end),
{
    assert forall|j: int|
        0 <= j < i + 1 && t.parent_of(#[trigger] eles[j] as int).is_some() implies (exists|k: int|
        0 <= k < new_groups.len() && (#[trigger] new_groups[k].start) <= j < new_groups[k].end) || (
    new_cur.is_some() && new_cur.unwrap().start <= j < new_cur.unwrap().end) by {
        if j == i {
        } else {
            if exists|k: int|
                0 <= k < old_groups.len() && (#[trigger] old_groups[k].start) <= j
                    < old_groups[k].end {
                let k = choose|k: int|
                    0 <= k < old_groups.len() && (#[trigger] old_groups[k].start) <= j
                        < old_groups[k].end;
                assert(new_groups[k].start <= j < new_groups[k].end);
            } else if old_cur.is_some() && old_cur.unwrap().start <= j < old_cur.unwrap().end {
                if new_groups == old_groups.push(old_cur.unwrap()) && old_cur.is_some() {
                    let k = new_groups.len() - 1;
                    assert(new_groups[k].start <= j < new_groups[k].end);
                }
            }
        }
    }
}

} // verus!
