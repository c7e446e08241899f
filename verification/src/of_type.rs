//! The nth-of-type matcher family: sibling positions counted independently
//! per tag name, plus the only-of-type predicate built on the same counting
//! and reconciliation primitives.

use vstd::prelude::*;
use vstd::pervasive::VecAdditionalExecFns;
use crate::tree::{
    Tree,
    sorted_strict,
    valid_candidates,
    lemma_sorted_strict_injective,
    lemma_filter_equivalent,
    lemma_filter_none,
};
use crate::group::{SiblingGroup, group_ok, groups_ok, group_siblings};
use crate::nth::{
    nth_allows,
    spec_offset,
    get_allowed_indexs,
    allow_has,
    allow_contains,
    lemma_allow_has_contains,
};
use crate::nth_child::{index_in, lemma_child_membership};

verus! {

/// Holds of the ids of element children carrying the given tag.
pub open spec fn tag_pred(t: Tree, tag: u64) -> spec_fn(usize) -> bool {
    |c: usize| t.tag_of(c as int) == tag
}

/// How many entries of `cs` carry the tag.
pub open spec fn type_count(t: Tree, cs: Seq<usize>, tag: u64) -> nat {
    cs.filter(tag_pred(t, tag)).len()
}

/// The zero-based of-type position of the child at index `j`: how many
/// earlier siblings carry the same tag.
pub open spec fn type_pos(t: Tree, cs: Seq<usize>, j: int) -> nat {
    type_count(t, cs.take(j), t.tag_of(cs[j] as int))
}

/// The of-type position of child `j` read in the chosen direction.
pub open spec fn dir_type_pos(t: Tree, cs: Seq<usize>, asc: bool, j: int) -> int {
    if asc {
        type_pos(t, cs, j) as int
    } else {
        type_count(t, cs, t.tag_of(cs[j] as int)) - 1 - type_pos(t, cs, j)
    }
}

/// A tag's occurrences in a child list split at any member index: the ones
/// before it, the member itself, and the ones after it.
pub proof fn lemma_type_count_split(t: Tree, cs: Seq<usize>, j: int)
    requires
        0 <= j < cs.len(),
    ensures
        type_count(t, cs, t.tag_of(cs[j] as int)) == type_pos(t, cs, j) + 1 + type_count(
            t,
            cs.skip(j + 1),
            t.tag_of(cs[j] as int),
        ),
        type_pos(t, cs, j) < type_count(t, cs, t.tag_of(cs[j] as int)),
{
    let tag = t.tag_of(cs[j] as int);
    let pred = tag_pred(t, tag);
    assert(cs =~= cs.take(j).push(cs[j]) + cs.skip(j + 1));
    Seq::filter_distributes_over_add(cs.take(j).push(cs[j]), cs.skip(j + 1), pred);
    cs.take(j).lemma_filter_push(cs[j], pred);
    assert(pred(cs[j]));
}

/// An of-type position never reaches the full child count.
pub proof fn lemma_dir_type_pos_range(t: Tree, cs: Seq<usize>, asc: bool, j: int)
    requires
        0 <= j < cs.len(),
    ensures
        0 <= dir_type_pos(t, cs, asc, j) < cs.len(),
{
    broadcast use vstd::seq_lib::group_filter_ensures;

    lemma_type_count_split(t, cs, j);
    assert(type_count(t, cs, t.tag_of(cs[j] as int)) <= cs.len()) by {
        cs.lemma_filter_len(tag_pred(t, t.tag_of(cs[j] as int)));
    }
    assert(type_pos(t, cs, j) <= cs.take(j).len()) by {
        cs.take(j).lemma_filter_len(tag_pred(t, t.tag_of(cs[j] as int)));
    }
}

/// The ephemeral per-invocation tag-name to occurrence-counter mapping: an
/// association list keyed by interned tag ids, freshly allocated for each
/// matching call and never shared.
pub struct TagCounter {
    pub keys: Vec<u64>,
    pub counts: Vec<usize>,
}

impl TagCounter {
    /// Keys are unique and each key has one counter.
    pub open spec fn wf(self) -> bool {
        &&& self.keys@.len() == self.counts@.len()
        &&& forall|k1: int, k2: int|
            0 <= k1 < k2 < self.keys@.len() ==> self.keys@[k1] != self.keys@[k2]
    }

    /// The counter a tag stands at; zero when the tag was never seen.
    pub open spec fn count_of(self, tag: u64) -> nat {
        if exists|k: int| 0 <= k < self.keys@.len() && self.keys@[k] == tag {
            self.counts@[choose|k: int| 0 <= k < self.keys@.len() && self.keys@[k] == tag] as nat
        } else {
            0
        }
    }

    pub fn new() -> (r: TagCounter)
        ensures
            r.wf(),
            forall|tag: u64| r.count_of(tag) == 0,
    {
        let r = TagCounter { keys: Vec::new(), counts: Vec::new() };
        proof {
            assert forall|tag: u64| r.count_of(tag) == 0 by {}
        }
        r
    }

    /// Finds the slot a tag's counter occupies, if any.
    fn find_key(&self, tag: u64) -> (r: Option<usize>)
        ensures
            match r {
                Some(k) => (k as int) < self.keys@.len() && self.keys@[k as int] == tag,
                None => forall|q: int| 0 <= q < self.keys@.len() ==> self.keys@[q] != tag,
            },
    {
        let n = self.keys.len();
        let mut k: usize = 0;
        while k < n
            invariant
                n == self.keys@.len(),
                k <= n,
                forall|q: int| 0 <= q < k ==> self.keys@[q] != tag,
            decreases n - k,
        {
            if self.keys[k] == tag {
                return Some(k);
            }
            k = k + 1;
        }
        None
    }

    /// Reads a tag's counter.
    pub fn get(&self, tag: u64) -> (c: usize)
        requires
            self.wf(),
        ensures
            c == self.count_of(tag),
    {
        match self.find_key(tag) {
            Some(k) => {
                proof {
                    let kk = choose|kk: int| 0 <= kk < self.keys@.len() && self.keys@[kk] == tag;
                    assert(kk == k);
                }
                self.counts[k]
            },
            None => {
                proof {
                    if exists|kk: int| 0 <= kk < self.keys@.len() && self.keys@[kk] == tag {
                        let kk = choose|kk: int|
                            0 <= kk < self.keys@.len() && self.keys@[kk] == tag;
                    }
                }
                0
            },
        }
    }

    /// Advances a tag's counter by one, returning the value it stood at.
    pub fn bump(&mut self, tag: u64) -> (c: usize)
        requires
            old(self).wf(),
            old(self).count_of(tag) < usize::MAX,
        ensures
            final(self).wf(),
            c == old(self).count_of(tag),
            final(self).count_of(tag) == c + 1,
            forall|other: u64|
                other != tag ==> final(self).count_of(other) == old(self).count_of(other),
    {
        match self.find_key(tag) {
            Some(k) => {
                proof {
                    let kk = choose|kk: int| 0 <= kk < self.keys@.len() && self.keys@[kk] == tag;
                    assert(kk == k);
                }
                let c = self.counts[k];
                self.counts.set(k, c + 1);
                proof {
                    assert(self.wf());
                    let kk = choose|kk: int|
                        0 <= kk < self.keys@.len() && self.keys@[kk] == tag;
                    assert(kk == k);
                    assert forall|other: u64| other != tag implies self.count_of(other) == old(
                        self,
                    ).count_of(other) by {
                        if exists|q: int| 0 <= q < self.keys@.len() && self.keys@[q] == other {
                            let q = choose|q: int|
                                0 <= q < self.keys@.len() && self.keys@[q] == other;
                            assert(q != k);
                            assert(old(self).keys@[q] == other);
                            let q2 = choose|q2: int|
                                0 <= q2 < old(self).keys@.len() && old(self).keys@[q2] == other;
                            assert(q2 == q);
                        } else {
                            assert(!exists|q: int|
                                0 <= q < old(self).keys@.len() && old(self).keys@[q] == other);
                        }
                    }
                }
                c
            },
            None => {
                proof {
                    if exists|kk: int| 0 <= kk < self.keys@.len() && self.keys@[kk] == tag {
                        let kk = choose|kk: int|
                            0 <= kk < self.keys@.len() && self.keys@[kk] == tag;
                    }
                    assert(self.count_of(tag) == 0);
                }
                let ghost pre = *self;
                self.keys.push(tag);
                self.counts.push(1);
                proof {
                    assert(self.keys@ == pre.keys@.push(tag));
                    assert(self.counts@ == pre.counts@.push(1usize));
                    assert(self.wf()) by {
                        assert forall|k1: int, k2: int|
                            0 <= k1 < k2 < self.keys@.len() implies self.keys@[k1]
                            != self.keys@[k2] by {
                            if k2 == self.keys@.len() - 1 {
                                assert(self.keys@[k1] == pre.keys@[k1]);
                                assert(pre.keys@[k1] != tag);
                            }
                        }
                    }
                    assert(self.keys@[self.keys@.len() - 1] == tag);
                    let kk = choose|kk: int|
                        0 <= kk < self.keys@.len() && self.keys@[kk] == tag;
                    assert(kk == self.keys@.len() - 1);
                    assert(self.count_of(tag) == 1);
                    assert forall|other: u64| other != tag implies self.count_of(other)
                        == pre.count_of(other) by {
                        if exists|q: int| 0 <= q < self.keys@.len() && self.keys@[q] == other {
                            let q = choose|q: int|
                                0 <= q < self.keys@.len() && self.keys@[q] == other;
                            assert(q < pre.keys@.len());
                            assert(pre.keys@[q] == other);
                            let q2 = choose|q2: int|
                                0 <= q2 < pre.keys@.len() && pre.keys@[q2] == other;
                            assert(q2 == q);
                        } else {
                            assert(!exists|q: int|
                                0 <= q < pre.keys@.len() && pre.keys@[q] == other) by {
                                if exists|q: int|
                                    0 <= q < pre.keys@.len() && pre.keys@[q] == other {
                                    let q = choose|q: int|
                                        0 <= q < pre.keys@.len() && pre.keys@[q] == other;
                                    assert(self.keys@[q] == other);
                                }
                            }
                        }
                    }
                }
                0
            },
        }
    }
}

/// Holds of candidates present in a sorted id list.
pub open spec fn contained_pred(a: Seq<usize>) -> spec_fn(usize) -> bool {
    |e: usize| a.contains(e)
}

/// One step of the of-type walk: advance the
/// walked child's tag counter, test the position it stood at against the
/// allowed-index set by binary search, and on a hit record the child's
/// document position (its id) in the ordered hit list.
pub fn get_allowed_name_ele(
    t: &Tree,
    ele: usize,
    names: &mut TagCounter,
    allow: &Vec<usize>,
    node_indexs: &mut Vec<usize>,
) -> (b: bool)
    requires
        (ele as int) < t.len(),
        sorted_strict(allow@),
        old(names).wf(),
        old(names).count_of(t.tag_of(ele as int)) < usize::MAX,
    ensures
        final(names).wf(),
        b == allow_has(allow@, old(names).count_of(t.tag_of(ele as int)) as int),
        final(names).count_of(t.tag_of(ele as int)) == old(names).count_of(
            t.tag_of(ele as int),
        ) + 1,
        forall|other: u64|
            other != t.tag_of(ele as int) ==> final(names).count_of(other) == old(
                names,
            ).count_of(other),
        final(node_indexs)@ == if b {
            old(node_indexs)@.push(ele)
        } else {
            old(node_indexs)@
        },
{
    let tag = t.tag(ele);
    let c = names.bump(tag);
    let b = allow_contains(allow, c);
    proof {
        lemma_allow_has_contains(allow@, c);
    }
    if b {
        node_indexs.push(ele);
    }
    b
}

/// Reconciles the recorded hit ids against the candidate sub-range with a
/// two-pointer alignment over document positions: appends, in document
/// order, exactly the candidates of the range that were recorded.
pub fn collect_avail_name_eles(
    node_indexs: &Vec<usize>,
    eles: &Vec<usize>,
    start: usize,
    end: usize,
    finded: &mut Vec<usize>,
)
    requires
        sorted_strict(node_indexs@),
        sorted_strict(eles@),
        start <= end <= eles@.len(),
    ensures
        final(finded)@ == old(finded)@ + eles@.subrange(start as int, end as int).filter(
            contained_pred(node_indexs@),
        ),
{
    let ghost pred = contained_pred(node_indexs@);
    let ghost orig = finded@;
    let av_total = node_indexs.len();
    let mut av_index: usize = 0;
    let mut sib_index: usize = start;
    proof {
        assert(eles@.subrange(start as int, start as int) =~= Seq::<usize>::empty());
        assert(Seq::<usize>::empty().filter(pred) =~= Seq::<usize>::empty()) by {
            Seq::<usize>::empty().lemma_filter_len(pred);
        }
    }
    while av_index < av_total && sib_index < end
        invariant
            sorted_strict(node_indexs@),
            sorted_strict(eles@),
            start <= sib_index <= end <= eles@.len(),
            av_index <= av_total == node_indexs@.len(),
            pred == contained_pred(node_indexs@),
            finded@ == orig + eles@.subrange(start as int, sib_index as int).filter(pred),
            sib_index < end ==> forall|q: int|
                0 <= q < av_index ==> node_indexs@[q] < eles@[sib_index as int],
        decreases (av_total - av_index) + (end - sib_index),
    {
        let a = node_indexs[av_index];
        let e = eles[sib_index];
        proof {
            assert(eles@.subrange(start as int, sib_index as int + 1) =~= eles@.subrange(
                start as int,
                sib_index as int,
            ).push(e));
            eles@.subrange(start as int, sib_index as int).lemma_filter_push(e, pred);
        }
        if a == e {
            proof {
                assert(node_indexs@[av_index as int] == e);
                assert(pred(e));
            }
            finded.push(e);
            av_index = av_index + 1;
            sib_index = sib_index + 1;
        } else if a < e {
            av_index = av_index + 1;
        } else {
            proof {
                assert(!pred(e)) by {
                    if node_indexs@.contains(e) {
                        let q = choose|q: int|
                            0 <= q < node_indexs@.len() && node_indexs@[q] == e;
                        if q < av_index {
                        } else {
                            assert(node_indexs@[q] >= node_indexs@[av_index as int]);
                        }
                    }
                }
            }
            sib_index = sib_index + 1;
        }
    }
    proof {
        if sib_index < end {
            // the hit list is exhausted: nothing later in the range is in it
            assert forall|q: int| sib_index <= q < end implies !pred(#[trigger] eles@[q]) by {
                if node_indexs@.contains(eles@[q]) {
                    let a = choose|a: int|
                        0 <= a < node_indexs@.len() && node_indexs@[a] == eles@[q];
                    assert(node_indexs@[a] < eles@[sib_index as int]);
                    assert(eles@[sib_index as int] <= eles@[q]);
                }
            }
            let tailseq = eles@.subrange(sib_index as int, end as int);
            assert forall|q: int| 0 <= q < tailseq.len() implies !pred(#[trigger] tailseq[q]) by {
                assert(tailseq[q] == eles@[sib_index + q]);
            }
            lemma_filter_none(tailseq, pred);
            crate::tree::lemma_filter_concat(
                eles@,
                start as int,
                sib_index as int,
                end as int,
                pred,
            );
        }
        assert(finded@ =~= orig + eles@.subrange(start as int, end as int).filter(pred));
    }
}


/// The candidate stands among the element children of `parent` at a tag-
/// scoped position whose direction-adjusted index is in the allowed set.
pub open spec fn of_type_allow_matches(
    t: Tree,
    parent: usize,
    allow: Seq<usize>,
    asc: bool,
    e: usize,
) -> bool {
    let cs = t.element_children(parent as int);
    exists|j: int|
        0 <= j < cs.len() && cs[j] == e && allow_has(allow, dir_type_pos(t, cs, asc, j))
}

/// `of_type_allow_matches` as a filter predicate.
pub open spec fn of_type_allow_pred(t: Tree, parent: usize, allow: Seq<usize>, asc: bool) -> spec_fn(
    usize,
) -> bool {
    |e: usize| of_type_allow_matches(t, parent, allow, asc, e)
}

/// The nth formula selects the candidate's direction-adjusted tag-scoped
/// position among the element children of `parent`.
pub open spec fn nth_of_type_at(
    t: Tree,
    parent: usize,
    asc: bool,
    step: Option<i64>,
    offset: i64,
    e: usize,
) -> bool {
    let cs = t.element_children(parent as int);
    exists|j: int|
        0 <= j < cs.len() && cs[j] == e && nth_allows(
            step,
            offset,
            dir_type_pos(t, cs, asc, j) as nat,
        )
}

/// The candidate's parent exists and the nth formula selects the candidate's
/// direction-adjusted tag-scoped position among that parent's element
/// children.
pub open spec fn nth_of_type_matches(
    t: Tree,
    asc: bool,
    step: Option<i64>,
    offset: i64,
    e: usize,
) -> bool {
    match t.parent_of(e as int) {
        Some(p) => nth_of_type_at(t, p, asc, step, offset, e),
        None => false,
    }
}

/// `nth_of_type_matches` as a filter predicate.
pub open spec fn nth_of_type_pred(t: Tree, asc: bool, step: Option<i64>, offset: i64) -> spec_fn(
    usize,
) -> bool {
    |e: usize| nth_of_type_matches(t, asc, step, offset, e)
}

/// The candidate is the first (ascending) or last (descending) element
/// child of its tag among the element children of `parent`.
pub open spec fn first_last_of_type_at(t: Tree, parent: usize, asc: bool, e: usize) -> bool {
    let cs = t.element_children(parent as int);
    exists|j: int| 0 <= j < cs.len() && cs[j] == e && dir_type_pos(t, cs, asc, j) == 0
}

/// The candidate's parent exists and the candidate is that parent's first
/// (ascending) or last (descending) child of its tag.
pub open spec fn first_last_of_type_matches(t: Tree, asc: bool, e: usize) -> bool {
    match t.parent_of(e as int) {
        Some(p) => first_last_of_type_at(t, p, asc, e),
        None => false,
    }
}

/// `first_last_of_type_matches` as a filter predicate.
pub open spec fn first_last_of_type_pred(t: Tree, asc: bool) -> spec_fn(usize) -> bool {
    |e: usize| first_last_of_type_matches(t, asc, e)
}

/// The candidate stands among the element children of `parent` and its tag
/// occurs exactly once there.
pub open spec fn only_of_type_at(t: Tree, parent: usize, e: usize) -> bool {
    let cs = t.element_children(parent as int);
    exists|j: int|
        0 <= j < cs.len() && cs[j] == e && type_count(t, cs, t.tag_of(e as int)) == 1
}

/// The candidate's parent exists and the candidate is the only child of its
/// tag among all of that parent's element children.
pub open spec fn only_of_type_matches(t: Tree, e: usize) -> bool {
    match t.parent_of(e as int) {
        Some(p) => only_of_type_at(t, p, e),
        None => false,
    }
}

/// `only_of_type_matches` as a filter predicate.
pub open spec fn only_of_type_pred(t: Tree) -> spec_fn(usize) -> bool {
    |e: usize| only_of_type_matches(t, e)
}

/// Reverses a hit list recorded by a descending walk back to ascending
/// document order.
fn reverse_hits(v: &Vec<usize>) -> (r: Vec<usize>)
    ensures
        r@.len() == v@.len(),
        forall|i: int| 0 <= i < r@.len() ==> r@[i] == v@[v@.len() - 1 - i],
        forall|c: usize| r@.contains(c) <==> v@.contains(c),
{
    let n = v.len();
    let mut r: Vec<usize> = Vec::new();
    let mut i: usize = 0;
    while i < n
        invariant
            n == v@.len(),
            i <= n,
            r@.len() == i,
            forall|q: int| 0 <= q < i ==> r@[q] == v@[v@.len() - 1 - q],
        decreases n - i,
    {
        let x = v[n - 1 - i];
        r.push(x);
        i = i + 1;
    }
    proof {
        assert forall|c: usize| r@.contains(c) implies v@.contains(c) by {
            let q = choose|q: int| 0 <= q < r@.len() && r@[q] == c;
            assert(v@[v@.len() - 1 - q] == c);
        }
        assert forall|c: usize| v@.contains(c) implies r@.contains(c) by {
            let q = choose|q: int| 0 <= q < v@.len() && v@[q] == c;
            assert(r@[v@.len() - 1 - q] == c);
        }
    }
    r
}

/// Walks the parent's element children in the chosen direction with a fresh
/// tag-counter map and records, in ascending document order, the ids of the
/// children whose direction-adjusted tag-scoped position is allowed.
fn collect_type_hits(
    t: &Tree,
    parent: usize,
    childs: &Vec<usize>,
    allow: &Vec<usize>,
    asc: bool,
) -> (node_indexs: Vec<usize>)
    requires
        t.wf(),
        (parent as int) < t.len(),
        childs@ == t.element_children(parent as int),
        sorted_strict(childs@),
        sorted_strict(allow@),
    ensures
        sorted_strict(node_indexs@),
        forall|q: int|
            0 <= q < childs@.len() ==> (node_indexs@.contains(#[trigger] childs@[q]) <==> allow_has(
                allow@,
                dir_type_pos(*t, childs@, asc, q),
            )),
        forall|c: usize|
            node_indexs@.contains(c) ==> exists|q: int| 0 <= q < childs@.len() && childs@[q] == c,
{
    let ghost cs = childs@;
    let total = childs.len();
    let mut names = TagCounter::new();
    let mut node_indexs: Vec<usize> = Vec::new();
    if asc {
        let mut j: usize = 0;
        while j < total
            invariant
                t.wf(),
                (parent as int) < t.len(),
                cs == childs@,
                cs == t.element_children(parent as int),
                sorted_strict(cs),
                sorted_strict(allow@),
                total == cs.len(),
                j <= total,
                names.wf(),
                forall|tg: u64| #[trigger] names.count_of(tg) == type_count(*t, cs.take(j as int), tg),
                sorted_strict(node_indexs@),
                forall|q: int|
                    0 <= q < j ==> (node_indexs@.contains(#[trigger] cs[q]) <==> allow_has(
                        allow@,
                        dir_type_pos(*t, cs, true, q),
                    )),
                forall|c: usize|
                    node_indexs@.contains(c) ==> exists|q: int| 0 <= q < j && cs[q] == c,
            decreases total - j,
        {
            let ele = childs[j];
            proof {
                assert(t.wf_node(parent as int));
                // the walked child is a node of the tree
                crate::tree::lemma_filter_membership(
                    t.child_nodes_of(parent as int),
                    t.element_pred(),
                    ele,
                );
                assert(t.child_nodes_of(parent as int).contains(ele));
                let w = choose|w: int|
                    0 <= w < t.child_nodes_of(parent as int).len() && t.child_nodes_of(
                        parent as int,
                    )[w] == ele;
                // counter stays below the walked prefix length
                assert(names.count_of(t.tag_of(ele as int)) <= cs.take(j as int).len()) by {
                    cs.take(j as int).lemma_filter_len(tag_pred(*t, t.tag_of(ele as int)));
                }
            }
            let ghost old_names = names;
            let ghost old_hits = node_indexs@;
            let b = get_allowed_name_ele(t, ele, &mut names, allow, &mut node_indexs);
            proof {
                assert(type_pos(*t, cs, j as int) == old_names.count_of(t.tag_of(ele as int)));
                assert(b == allow_has(allow@, dir_type_pos(*t, cs, true, j as int)));
                // counters advanced to cover the longer prefix
                assert forall|tg: u64| #[trigger] names.count_of(tg) == type_count(
                    *t,
                    cs.take(j as int + 1),
                    tg,
                ) by {
                    assert(cs.take(j as int + 1) =~= cs.take(j as int).push(cs[j as int]));
                    cs.take(j as int).lemma_filter_push(cs[j as int], tag_pred(*t, tg));
                    if tg == t.tag_of(ele as int) {
                        assert(tag_pred(*t, tg)(cs[j as int]));
                    } else {
                        assert(!tag_pred(*t, tg)(cs[j as int]));
                    }
                }
                // hit-list facts carry to the extended prefix
                if b {
                    assert(node_indexs@ == old_hits.push(ele));
                    assert forall|c: usize| node_indexs@.contains(c) implies exists|q: int|
                        0 <= q < j + 1 && cs[q] == c by {
                        let w = choose|w: int| 0 <= w < node_indexs@.len() && node_indexs@[w] == c;
                        if w < old_hits.len() {
                            assert(old_hits[w] == c);
                            assert(old_hits.contains(c));
                        } else {
                            assert(cs[j as int] == c);
                        }
                    }
                    assert(sorted_strict(node_indexs@)) by {
                        assert forall|q1: int, q2: int|
                            0 <= q1 < q2 < node_indexs@.len() implies node_indexs@[q1]
                            < node_indexs@[q2] by {
                            if q2 == node_indexs@.len() - 1 {
                                assert(old_hits[q1] == node_indexs@[q1]);
                                assert(old_hits.contains(old_hits[q1]));
                                let w = choose|w: int| 0 <= w < j && cs[w] == old_hits[q1];
                                assert(cs[w] < cs[j as int]);
                            }
                        }
                    }
                    assert forall|q: int|
                        0 <= q < j + 1 implies (node_indexs@.contains(#[trigger] cs[q])
                        <==> allow_has(allow@, dir_type_pos(*t, cs, true, q))) by {
                        if q < j {
                            assert(cs[q] < cs[j as int]);
                            assert(node_indexs@.contains(cs[q]) <==> old_hits.contains(cs[q])) by {
                                if old_hits.contains(cs[q]) {
                                    let w = choose|w: int|
                                        0 <= w < old_hits.len() && old_hits[w] == cs[q];
                                    assert(node_indexs@[w] == cs[q]);
                                }
                                if node_indexs@.contains(cs[q]) {
                                    let w = choose|w: int|
                                        0 <= w < node_indexs@.len() && node_indexs@[w] == cs[q];
                                    assert(w < old_hits.len());
                                    assert(old_hits[w] == cs[q]);
                                }
                            }
                        } else {
                            assert(node_indexs@[node_indexs@.len() - 1] == cs[q]);
                        }
                    }
                } else {
                    assert(node_indexs@ == old_hits);
                    assert forall|q: int|
                        0 <= q < j + 1 implies (node_indexs@.contains(#[trigger] cs[q])
                        <==> allow_has(allow@, dir_type_pos(*t, cs, true, q))) by {
                        if q == j {
                            if node_indexs@.contains(cs[q]) {
                                let w = choose|w: int| 0 <= w < j && cs[w] == cs[q];
                                lemma_sorted_strict_injective(cs, w, q);
                            }
                        }
                    }
                }
            }
            j = j + 1;
        }
        proof {
            assert(cs.take(total as int) =~= cs);
        }
        node_indexs
    } else {
        let mut i: usize = 0;
        while i < total
            invariant
                t.wf(),
                (parent as int) < t.len(),
                cs == childs@,
                cs == t.element_children(parent as int),
                sorted_strict(cs),
                sorted_strict(allow@),
                total == cs.len(),
                i <= total,
                names.wf(),
                forall|tg: u64| #[trigger] names.count_of(tg) == type_count(
                    *t,
                    cs.skip(total - i as int),
                    tg,
                ),
                forall|q1: int, q2: int|
                    0 <= q1 < q2 < node_indexs@.len() ==> node_indexs@[q1] > node_indexs@[q2],
                forall|q: int|
                    total - i <= q < total ==> (node_indexs@.contains(#[trigger] cs[q])
                        <==> allow_has(allow@, dir_type_pos(*t, cs, false, q))),
                forall|c: usize|
                    node_indexs@.contains(c) ==> exists|q: int|
                        total - i <= q < total && cs[q] == c,
            decreases total - i,
        {
            let idx = total - 1 - i;
            let ele = childs[idx];
            proof {
                assert(t.wf_node(parent as int));
                crate::tree::lemma_filter_membership(
                    t.child_nodes_of(parent as int),
                    t.element_pred(),
                    ele,
                );
                assert(t.child_nodes_of(parent as int).contains(ele));
                let w = choose|w: int|
                    0 <= w < t.child_nodes_of(parent as int).len() && t.child_nodes_of(
                        parent as int,
                    )[w] == ele;
                assert(names.count_of(t.tag_of(ele as int)) <= cs.skip(idx as int + 1).len()) by {
                    cs.skip(idx as int + 1).lemma_filter_len(tag_pred(*t, t.tag_of(ele as int)));
                }
            }
            let ghost old_names = names;
            let ghost old_hits = node_indexs@;
            let b = get_allowed_name_ele(t, ele, &mut names, allow, &mut node_indexs);
            proof {
                lemma_type_count_split(*t, cs, idx as int);
                assert(old_names.count_of(t.tag_of(ele as int)) == type_count(
                    *t,
                    cs.skip(idx as int + 1),
                    t.tag_of(cs[idx as int] as int),
                ));
                assert(b == allow_has(allow@, dir_type_pos(*t, cs, false, idx as int)));
                assert forall|tg: u64| #[trigger] names.count_of(tg) == type_count(
                    *t,
                    cs.skip(idx as int),
                    tg,
                ) by {
                    assert(cs.skip(idx as int) =~= Seq::<usize>::empty().push(cs[idx as int])
                        + cs.skip(idx as int + 1));
                    Seq::filter_distributes_over_add(
                        Seq::<usize>::empty().push(cs[idx as int]),
                        cs.skip(idx as int + 1),
                        tag_pred(*t, tg),
                    );
                    Seq::<usize>::empty().lemma_filter_push(cs[idx as int], tag_pred(*t, tg));
                    assert(Seq::<usize>::empty().filter(tag_pred(*t, tg)).len() == 0) by {
                        Seq::<usize>::empty().lemma_filter_len(tag_pred(*t, tg));
                    }
                    if tg == t.tag_of(ele as int) {
                        assert(tag_pred(*t, tg)(cs[idx as int]));
                    } else {
                        assert(!tag_pred(*t, tg)(cs[idx as int]));
                    }
                }
                if b {
                    assert(node_indexs@ == old_hits.push(ele));
                    assert forall|c: usize| node_indexs@.contains(c) implies exists|q: int|
                        total - (i + 1) <= q < total && cs[q] == c by {
                        let w = choose|w: int| 0 <= w < node_indexs@.len() && node_indexs@[w] == c;
                        if w < old_hits.len() {
                            assert(old_hits[w] == c);
                            assert(old_hits.contains(c));
                        } else {
                            assert(cs[idx as int] == c);
                        }
                    }
                    assert forall|q1: int, q2: int|
                        0 <= q1 < q2 < node_indexs@.len() implies node_indexs@[q1]
                        > node_indexs@[q2] by {
                        if q2 == node_indexs@.len() - 1 {
                            assert(old_hits[q1] == node_indexs@[q1]);
                            assert(old_hits.contains(old_hits[q1]));
                            let w = choose|w: int|
                                total - i <= w < total && cs[w] == old_hits[q1];
                            assert(cs[idx as int] < cs[w]);
                        }
                    }
                    assert forall|q: int|
                        total - (i + 1) <= q < total implies (node_indexs@.contains(
                        #[trigger] cs[q],
                    ) <==> allow_has(allow@, dir_type_pos(*t, cs, false, q))) by {
                        if q > idx {
                            assert(cs[idx as int] < cs[q]);
                            assert(node_indexs@.contains(cs[q]) <==> old_hits.contains(cs[q])) by {
                                if old_hits.contains(cs[q]) {
                                    let w = choose|w: int|
                                        0 <= w < old_hits.len() && old_hits[w] == cs[q];
                                    assert(node_indexs@[w] == cs[q]);
                                }
                                if node_indexs@.contains(cs[q]) {
                                    let w = choose|w: int|
                                        0 <= w < node_indexs@.len() && node_indexs@[w] == cs[q];
                                    assert(w < old_hits.len());
                                    assert(old_hits[w] == cs[q]);
                                }
                            }
                        } else {
                            assert(node_indexs@[node_indexs@.len() - 1] == cs[q]);
                        }
                    }
                } else {
                    assert(node_indexs@ == old_hits);
                    assert forall|q: int|
                        total - (i + 1) <= q < total implies (node_indexs@.contains(
                        #[trigger] cs[q],
                    ) <==> allow_has(allow@, dir_type_pos(*t, cs, false, q))) by {
                        if q == idx {
                            if node_indexs@.contains(cs[q]) {
                                let w = choose|w: int|
                                    total - i <= w < total && cs[w] == cs[q];
                                lemma_sorted_strict_injective(cs, w, q);
                            }
                        }
                    }
                }
            }
            i = i + 1;
        }
        proof {
            assert(cs.skip(0) =~= cs);
        }
        let hits = reverse_hits(&node_indexs);
        proof {
            assert forall|q1: int, q2: int|
                0 <= q1 < q2 < hits@.len() implies hits@[q1] < hits@[q2] by {
                let l = node_indexs@.len() as int;
                assert(hits@[q1] == node_indexs@[l - 1 - q1]);
                assert(hits@[q2] == node_indexs@[l - 1 - q2]);
            }
        }
        hits
    }
}


/// An element child of a well-formed parent is a node of the tree and points
/// back at the parent.
pub proof fn lemma_child_in_bounds(t: Tree, parent: usize, c: usize)
    requires
        t.wf(),
        (parent as int) < t.len(),
        t.element_children(parent as int).contains(c),
    ensures
        (c as int) < t.len(),
        t.parent_of(c as int) == Some(parent),
        t.kind_of(c as int) == crate::tree::NodeKind::Element,
{
    assert(t.wf_node(parent as int));
    crate::tree::lemma_filter_membership(t.child_nodes_of(parent as int), t.element_pred(), c);
    assert(t.child_nodes_of(parent as int).contains(c));
    let w = choose|w: int|
        0 <= w < t.child_nodes_of(parent as int).len() && t.child_nodes_of(parent as int)[w] == c;
    assert(t.element_pred()(c));
}

/// Fetches the group parent's element children, records the allowed
/// tag-scoped hits in document order, and reconciles them against the
/// group's candidate range, appending the survivors to the accumulated
/// result.
pub fn handle_nth_of_type(
    t: &Tree,
    asc: bool,
    eles: &Vec<usize>,
    group: &SiblingGroup,
    allow: &Vec<usize>,
    result: &mut Vec<usize>,
)
    requires
        t.wf(),
        valid_candidates(*t, eles@),
        group_ok(*t, eles@, *group),
        sorted_strict(allow@),
    ensures
        final(result)@ == old(result)@ + eles@.subrange(
            group.start as int,
            group.end as int,
        ).filter(of_type_allow_pred(*t, group.parent, allow@, asc)),
{
    let childs = t.children(group.parent);
    proof {
        assert(t.wf_node(group.parent as int));
        crate::tree::lemma_filter_sorted_strict(
            t.child_nodes_of(group.parent as int),
            t.element_pred(),
        );
    }
    let node_indexs = collect_type_hits(t, group.parent, &childs, allow, asc);
    let ghost before = result@;
    collect_avail_name_eles(&node_indexs, eles, group.start, group.end, result);
    proof {
        let cs = childs@;
        let sub = eles@.subrange(group.start as int, group.end as int);
        let p1 = contained_pred(node_indexs@);
        let p2 = of_type_allow_pred(*t, group.parent, allow@, asc);
        assert forall|q: int| 0 <= q < sub.len() implies (p1(#[trigger] sub[q]) <==> p2(
            sub[q],
        )) by {
            let e = sub[q];
            assert(e == eles@[group.start + q]);
            assert(t.parent_of(e as int) == Some(group.parent));
            lemma_child_membership(*t, group.parent, e);
            let je = index_in(cs, e);
            assert(cs[je] == e);
            if p1(e) {
                assert(node_indexs@.contains(cs[je]));
                assert(allow_has(allow@, dir_type_pos(*t, cs, asc, je)));
                assert(0 <= je < cs.len() && cs[je] == e && allow_has(
                    allow@,
                    dir_type_pos(*t, cs, asc, je),
                ));
                assert(of_type_allow_matches(*t, group.parent, allow@, asc, e));
                assert(p2(e));
            }
            if p2(e) {
                assert(of_type_allow_matches(*t, group.parent, allow@, asc, e));
                let j = choose|j: int|
                    0 <= j < cs.len() && cs[j] == e && allow_has(
                        allow@,
                        dir_type_pos(*t, cs, asc, j),
                    );
                lemma_sorted_strict_injective(cs, j, je);
                assert(node_indexs@.contains(cs[je]));
                assert(p1(e));
            }
        }
        lemma_filter_equivalent(sub, p1, p2);
        assert(result@ =~= before + sub.filter(p2));
    }
}

/// The two spec predicates a sibling group is filtered under coincide once
/// the allowed-index set resolves the nth formula against the parent's
/// child count.
proof fn lemma_of_type_group_pred_equivalent(
    t: Tree,
    eles: Seq<usize>,
    g: SiblingGroup,
    allow: Seq<usize>,
    asc: bool,
    step: Option<i64>,
    offset: i64,
)
    requires
        t.wf(),
        valid_candidates(t, eles),
        group_ok(t, eles, g),
        forall|d: int|
            0 <= d < t.element_children(g.parent as int).len() ==> (allow_has(allow, d)
                <==> nth_allows(step, offset, d as nat)),
    ensures
        eles.subrange(g.start as int, g.end as int).filter(
            of_type_allow_pred(t, g.parent, allow, asc),
        ) == eles.subrange(g.start as int, g.end as int).filter(
            nth_of_type_pred(t, asc, step, offset),
        ),
{
    let sub = eles.subrange(g.start as int, g.end as int);
    let p1 = of_type_allow_pred(t, g.parent, allow, asc);
    let p2 = nth_of_type_pred(t, asc, step, offset);
    let cs = t.element_children(g.parent as int);
    assert forall|q: int| 0 <= q < sub.len() implies (p1(#[trigger] sub[q]) <==> p2(sub[q])) by {
        let e = sub[q];
        assert(e == eles[g.start + q]);
        assert(t.parent_of(e as int) == Some(g.parent));
        if p1(e) {
            let j = choose|j: int|
                0 <= j < cs.len() && cs[j] == e && allow_has(allow, dir_type_pos(t, cs, asc, j));
            lemma_dir_type_pos_range(t, cs, asc, j);
            let d = dir_type_pos(t, cs, asc, j);
            assert(nth_allows(step, offset, d as nat));
            assert(0 <= j < cs.len() && cs[j] == e && nth_allows(
                step,
                offset,
                dir_type_pos(t, cs, asc, j) as nat,
            ));
            assert(nth_of_type_at(t, g.parent, asc, step, offset, e));
            assert(p2(e));
        }
        if p2(e) {
            assert(nth_of_type_at(t, g.parent, asc, step, offset, e));
            let j = choose|j: int|
                0 <= j < cs.len() && cs[j] == e && nth_allows(
                    step,
                    offset,
                    dir_type_pos(t, cs, asc, j) as nat,
                );
            lemma_dir_type_pos_range(t, cs, asc, j);
            let d = dir_type_pos(t, cs, asc, j);
            assert(allow_has(allow, d));
            assert(0 <= j < cs.len() && cs[j] == e && allow_has(
                allow,
                dir_type_pos(t, cs, asc, j),
            ));
            assert(of_type_allow_matches(t, g.parent, allow, asc, e));
            assert(p1(e));
        }
    }
    lemma_filter_equivalent(sub, p1, p2);
}

/// Bulk mode for `nth-of-type` and `nth-last-of-type`: groups the candidate
/// sequence by shared parent, resolves the nth formula against each parent's
/// element-child count, and keeps, in document order, exactly the candidates
/// whose direction-adjusted tag-scoped position the formula selects.
pub fn nth_of_type_filter(
    t: &Tree,
    eles: &Vec<usize>,
    asc: bool,
    step: Option<i64>,
    offset: Option<i64>,
) -> (result: Vec<usize>)
    requires
        t.wf(),
        valid_candidates(*t, eles@),
    ensures
        result@ == eles@.filter(nth_of_type_pred(*t, asc, step, spec_offset(offset))),
{
    let ghost gpred = nth_of_type_pred(*t, asc, step, spec_offset(offset));
    let groups = group_siblings(t, eles);
    let mut result: Vec<usize> = Vec::new();
    let ghost mut prev_end: int = 0;
    let mut gi: usize = 0;
    proof {
        assert(eles@.subrange(0, 0).filter(gpred) =~= Seq::<usize>::empty()) by {
            assert(eles@.subrange(0, 0) =~= Seq::<usize>::empty());
            Seq::<usize>::empty().lemma_filter_len(gpred);
        }
    }
    while gi < groups.len()
        invariant
            t.wf(),
            valid_candidates(*t, eles@),
            groups_ok(*t, eles@, groups@),
            gi <= groups@.len(),
            0 <= prev_end <= eles@.len(),
            gi == 0 ==> prev_end == 0,
            gi > 0 ==> prev_end == groups@[gi - 1].end,
            gpred == nth_of_type_pred(*t, asc, step, spec_offset(offset)),
            result@ == eles@.subrange(0, prev_end).filter(gpred),
        decreases groups@.len() - gi,
    {
        let g = groups[gi];
        proof {
            assert(group_ok(*t, eles@, g));
            if gi > 0 {
                assert(groups@[gi - 1].end <= groups@[gi as int].start);
            }
            assert forall|q: int|
                prev_end <= q < g.start && t.parent_of(
                    #[trigger] eles@[q] as int,
                ).is_none() implies !gpred(eles@[q]) by {}
            crate::group::lemma_gap_filter_empty(
                *t,
                eles@,
                groups@,
                gi as int,
                prev_end,
                g.start as int,
                gpred,
            );
            crate::tree::lemma_filter_concat(eles@, 0, prev_end, g.start as int, gpred);
            assert(result@ =~= eles@.subrange(0, g.start as int).filter(gpred));
        }
        let childs = t.children(g.parent);
        let allow = get_allowed_indexs(step, offset, childs.len());
        handle_nth_of_type(t, asc, eles, &g, &allow, &mut result);
        proof {
            lemma_of_type_group_pred_equivalent(
                *t,
                eles@,
                g,
                allow@,
                asc,
                step,
                spec_offset(offset),
            );
            crate::tree::lemma_filter_concat(eles@, 0, g.start as int, g.end as int, gpred);
            prev_end = g.end as int;
            assert(result@ =~= eles@.subrange(0, prev_end).filter(gpred));
        }
        gi = gi + 1;
    }
    proof {
        assert forall|q: int|
            prev_end <= q < eles@.len() && t.parent_of(
                #[trigger] eles@[q] as int,
            ).is_none() implies !gpred(eles@[q]) by {}
        crate::group::lemma_gap_filter_empty(
            *t,
            eles@,
            groups@,
            groups@.len() as int,
            prev_end,
            eles@.len() as int,
            gpred,
        );
        crate::tree::lemma_filter_concat(eles@, 0, prev_end, eles@.len() as int, gpred);
        assert(eles@.subrange(0, eles@.len() as int) =~= eles@);
        assert(result@ =~= eles@.filter(gpred));
    }
    result
}

/// Bulk mode for `first-of-type` and `last-of-type`: like the nth-of-type
/// walk, with the allowed-index set pinned to the single position zero.
pub fn first_or_last_of_type_filter(t: &Tree, eles: &Vec<usize>, asc: bool) -> (result: Vec<
    usize,
>)
    requires
        t.wf(),
        valid_candidates(*t, eles@),
    ensures
        result@ == eles@.filter(first_last_of_type_pred(*t, asc)),
{
    let ghost gpred = first_last_of_type_pred(*t, asc);
    let mut allow: Vec<usize> = Vec::new();
    allow.push(0);
    let groups = group_siblings(t, eles);
    let mut result: Vec<usize> = Vec::new();
    let ghost mut prev_end: int = 0;
    let mut gi: usize = 0;
    proof {
        assert(eles@.subrange(0, 0).filter(gpred) =~= Seq::<usize>::empty()) by {
            assert(eles@.subrange(0, 0) =~= Seq::<usize>::empty());
            Seq::<usize>::empty().lemma_filter_len(gpred);
        }
    }
    while gi < groups.len()
        invariant
            t.wf(),
            valid_candidates(*t, eles@),
            groups_ok(*t, eles@, groups@),
            gi <= groups@.len(),
            0 <= prev_end <= eles@.len(),
            gi == 0 ==> prev_end == 0,
            gi > 0 ==> prev_end == groups@[gi - 1].end,
            gpred == first_last_of_type_pred(*t, asc),
            allow@ == seq![0usize],
            sorted_strict(allow@),
            result@ == eles@.subrange(0, prev_end).filter(gpred),
        decreases groups@.len() - gi,
    {
        let g = groups[gi];
        proof {
            assert(group_ok(*t, eles@, g));
            if gi > 0 {
                assert(groups@[gi - 1].end <= groups@[gi as int].start);
            }
            assert forall|q: int|
                prev_end <= q < g.start && t.parent_of(
                    #[trigger] eles@[q] as int,
                ).is_none() implies !gpred(eles@[q]) by {}
            crate::group::lemma_gap_filter_empty(
                *t,
                eles@,
                groups@,
                gi as int,
                prev_end,
                g.start as int,
                gpred,
            );
            crate::tree::lemma_filter_concat(eles@, 0, prev_end, g.start as int, gpred);
            assert(result@ =~= eles@.subrange(0, g.start as int).filter(gpred));
        }
        handle_nth_of_type(t, asc, eles, &g, &allow, &mut result);
        proof {
            let sub = eles@.subrange(g.start as int, g.end as int);
            let p1 = of_type_allow_pred(*t, g.parent, allow@, asc);
            let cs = t.element_children(g.parent as int);
            assert forall|q: int| 0 <= q < sub.len() implies (p1(#[trigger] sub[q]) <==> gpred(
                sub[q],
            )) by {
                let e = sub[q];
                assert(e == eles@[g.start + q]);
                assert(t.parent_of(e as int) == Some(g.parent));
                if p1(e) {
                    let j = choose|j: int|
                        0 <= j < cs.len() && cs[j] == e && allow_has(
                            allow@,
                            dir_type_pos(*t, cs, asc, j),
                        );
                    let d = dir_type_pos(*t, cs, asc, j);
                    let k = choose|k: int| 0 <= k < allow@.len() && (#[trigger] allow@[k]) == d;
                    assert(allow@[k] == 0usize);
                    assert(0 <= j < cs.len() && cs[j] == e && dir_type_pos(*t, cs, asc, j) == 0);
                    assert(first_last_of_type_at(*t, g.parent, asc, e));
                    assert(gpred(e));
                }
                if gpred(e) {
                    assert(first_last_of_type_at(*t, g.parent, asc, e));
                    let j = choose|j: int|
                        0 <= j < cs.len() && cs[j] == e && dir_type_pos(*t, cs, asc, j) == 0;
                    assert((#[trigger] allow@[0]) == dir_type_pos(*t, cs, asc, j));
                    assert(allow_has(allow@, dir_type_pos(*t, cs, asc, j)));
                    assert(0 <= j < cs.len() && cs[j] == e && allow_has(
                        allow@,
                        dir_type_pos(*t, cs, asc, j),
                    ));
                    assert(of_type_allow_matches(*t, g.parent, allow@, asc, e));
                    assert(p1(e));
                }
            }
            lemma_filter_equivalent(sub, p1, gpred);
            crate::tree::lemma_filter_concat(eles@, 0, g.start as int, g.end as int, gpred);
            prev_end = g.end as int;
            assert(result@ =~= eles@.subrange(0, prev_end).filter(gpred));
        }
        gi = gi + 1;
    }
    proof {
        assert forall|q: int|
            prev_end <= q < eles@.len() && t.parent_of(
                #[trigger] eles@[q] as int,
            ).is_none() implies !gpred(eles@[q]) by {}
        crate::group::lemma_gap_filter_empty(
            *t,
            eles@,
            groups@,
            groups@.len() as int,
            prev_end,
            eles@.len() as int,
            gpred,
        );
        crate::tree::lemma_filter_concat(eles@, 0, prev_end, eles@.len() as int, gpred);
        assert(eles@.subrange(0, eles@.len() as int) =~= eles@);
        assert(result@ =~= eles@.filter(gpred));
    }
    result
}


/// Specified mode for the nth-of-type family with a literal one-based
/// offset: walks the parent's element children from the chosen end with a
/// fresh tag-counter map, scoped to each child's own tag, and stops as soon
/// as the tested element is reached, reporting whether the offset names its
/// tag-scoped position.
pub fn nth_of_type_specified(
    t: &Tree,
    parent: usize,
    asc: bool,
    index: i64,
    target: usize,
) -> (b: bool)
    requires
        t.wf(),
        (parent as int) < t.len(),
    ensures
        b == {
            let cs = t.element_children(parent as int);
            exists|j: int|
                0 <= j < cs.len() && cs[j] == target && index == dir_type_pos(*t, cs, asc, j) + 1
        },
{
    let ghost cs = t.element_children(parent as int);
    if index < 1 {
        proof {
            if exists|j: int|
                0 <= j < cs.len() && cs[j] == target && index == dir_type_pos(*t, cs, asc, j)
                    + 1 {
                let j = choose|j: int|
                    0 <= j < cs.len() && cs[j] == target && index == dir_type_pos(*t, cs, asc, j)
                        + 1;
                lemma_dir_type_pos_range(*t, cs, asc, j);
            }
        }
        return false;
    }
    let childs = t.children(parent);
    let total = childs.len();
    proof {
        assert(t.wf_node(parent as int));
        crate::tree::lemma_filter_sorted_strict(t.child_nodes_of(parent as int), t.element_pred());
    }
    let mut names = TagCounter::new();
    if asc {
        let mut j: usize = 0;
        while j < total
            invariant
                t.wf(),
                (parent as int) < t.len(),
                cs == t.element_children(parent as int),
                cs == childs@,
                sorted_strict(cs),
                total == cs.len(),
                j <= total,
                names.wf(),
                forall|tg: u64| #[trigger] names.count_of(tg) == type_count(
                    *t,
                    cs.take(j as int),
                    tg,
                ),
                forall|q: int| 0 <= q < j ==> cs[q] != target,
                asc,
            decreases total - j,
        {
            let ele = childs[j];
            proof {
                lemma_child_in_bounds(*t, parent, ele);
                assert(names.count_of(t.tag_of(ele as int)) <= cs.take(j as int).len()) by {
                    cs.take(j as int).lemma_filter_len(tag_pred(*t, t.tag_of(ele as int)));
                }
            }
            if ele == target {
                let c = names.get(t.tag(ele));
                let matched = (c as i128) == (index as i128) - 1;
                proof {
                    assert(c == type_pos(*t, cs, j as int));
                    assert(dir_type_pos(*t, cs, true, j as int) == c as int);
                    if matched {
                        assert(0 <= j < cs.len() && cs[j as int] == target && index
                            == dir_type_pos(*t, cs, asc, j as int) + 1);
                    } else {
                        if exists|q: int|
                            0 <= q < cs.len() && cs[q] == target && index == dir_type_pos(
                                *t,
                                cs,
                                asc,
                                q,
                            ) + 1 {
                            let q = choose|q: int|
                                0 <= q < cs.len() && cs[q] == target && index == dir_type_pos(
                                    *t,
                                    cs,
                                    asc,
                                    q,
                                ) + 1;
                            lemma_sorted_strict_injective(cs, q, j as int);
                            assert(false);
                        }
                    }
                }
                return matched;
            }
            names.bump(t.tag(ele));
            proof {
                assert forall|tg: u64| #[trigger] names.count_of(tg) == type_count(
                    *t,
                    cs.take(j as int + 1),
                    tg,
                ) by {
                    assert(cs.take(j as int + 1) =~= cs.take(j as int).push(cs[j as int]));
                    cs.take(j as int).lemma_filter_push(cs[j as int], tag_pred(*t, tg));
                    if tg == t.tag_of(ele as int) {
                        assert(tag_pred(*t, tg)(cs[j as int]));
                    } else {
                        assert(!tag_pred(*t, tg)(cs[j as int]));
                    }
                }
            }
            j = j + 1;
        }
        proof {
            if exists|q: int|
                0 <= q < cs.len() && cs[q] == target && index == dir_type_pos(*t, cs, asc, q)
                    + 1 {
                let q = choose|q: int|
                    0 <= q < cs.len() && cs[q] == target && index == dir_type_pos(*t, cs, asc, q)
                        + 1;
            }
        }
        false
    } else {
        let mut i: usize = 0;
        while i < total
            invariant
                t.wf(),
                (parent as int) < t.len(),
                cs == t.element_children(parent as int),
                cs == childs@,
                sorted_strict(cs),
                total == cs.len(),
                i <= total,
                names.wf(),
                forall|tg: u64| #[trigger] names.count_of(tg) == type_count(
                    *t,
                    cs.skip(total - i as int),
                    tg,
                ),
                forall|q: int| total - i <= q < total ==> cs[q] != target,
                !asc,
            decreases total - i,
        {
            let idx = total - 1 - i;
            let ele = childs[idx];
            proof {
                lemma_child_in_bounds(*t, parent, ele);
                assert(names.count_of(t.tag_of(ele as int)) <= cs.skip(idx as int + 1).len()) by {
                    cs.skip(idx as int + 1).lemma_filter_len(tag_pred(*t, t.tag_of(ele as int)));
                }
            }
            if ele == target {
                let c = names.get(t.tag(ele));
                let matched = (c as i128) == (index as i128) - 1;
                proof {
                    lemma_type_count_split(*t, cs, idx as int);
                    assert(c == type_count(
                        *t,
                        cs.skip(idx as int + 1),
                        t.tag_of(cs[idx as int] as int),
                    ));
                    assert(dir_type_pos(*t, cs, false, idx as int) == c as int);
                    if matched {
                        assert(0 <= idx < cs.len() && cs[idx as int] == target && index
                            == dir_type_pos(*t, cs, asc, idx as int) + 1);
                    } else {
                        if exists|q: int|
                            0 <= q < cs.len() && cs[q] == target && index == dir_type_pos(
                                *t,
                                cs,
                                asc,
                                q,
                            ) + 1 {
                            let q = choose|q: int|
                                0 <= q < cs.len() && cs[q] == target && index == dir_type_pos(
                                    *t,
                                    cs,
                                    asc,
                                    q,
                                ) + 1;
                            lemma_sorted_strict_injective(cs, q, idx as int);
                            assert(false);
                        }
                    }
                }
                return matched;
            }
            names.bump(t.tag(ele));
            proof {
                assert forall|tg: u64| #[trigger] names.count_of(tg) == type_count(
                    *t,
                    cs.skip(idx as int),
                    tg,
                ) by {
                    assert(cs.skip(idx as int) =~= Seq::<usize>::empty().push(cs[idx as int])
                        + cs.skip(idx as int + 1));
                    Seq::filter_distributes_over_add(
                        Seq::<usize>::empty().push(cs[idx as int]),
                        cs.skip(idx as int + 1),
                        tag_pred(*t, tg),
                    );
                    Seq::<usize>::empty().lemma_filter_push(cs[idx as int], tag_pred(*t, tg));
                    assert(Seq::<usize>::empty().filter(tag_pred(*t, tg)).len() == 0) by {
                        Seq::<usize>::empty().lemma_filter_len(tag_pred(*t, tg));
                    }
                    if tg == t.tag_of(ele as int) {
                        assert(tag_pred(*t, tg)(cs[idx as int]));
                    } else {
                        assert(!tag_pred(*t, tg)(cs[idx as int]));
                    }
                }
            }
            i = i + 1;
        }
        proof {
            if exists|q: int|
                0 <= q < cs.len() && cs[q] == target && index == dir_type_pos(*t, cs, asc, q)
                    + 1 {
                let q = choose|q: int|
                    0 <= q < cs.len() && cs[q] == target && index == dir_type_pos(*t, cs, asc, q)
                        + 1;
            }
        }
        false
    }
}

/// Walks the parent's element children twice: a name-occurrence pass that
/// counts every tag, then a pass that records, in document order, the ids
/// of the children whose tag occurs exactly once.
fn collect_only_type_hits(t: &Tree, parent: usize, childs: &Vec<usize>) -> (node_indexs: Vec<
    usize,
>)
    requires
        t.wf(),
        (parent as int) < t.len(),
        childs@ == t.element_children(parent as int),
        sorted_strict(childs@),
    ensures
        sorted_strict(node_indexs@),
        forall|q: int|
            0 <= q < childs@.len() ==> (node_indexs@.contains(#[trigger] childs@[q]) <==> type_count(
                *t,
                childs@,
                t.tag_of(childs@[q] as int),
            ) == 1),
        forall|c: usize|
            node_indexs@.contains(c) ==> exists|q: int| 0 <= q < childs@.len() && childs@[q] == c,
{
    let ghost cs = childs@;
    let total = childs.len();
    let mut names = TagCounter::new();
    let mut j: usize = 0;
    while j < total
        invariant
            t.wf(),
            (parent as int) < t.len(),
            cs == childs@,
            cs == t.element_children(parent as int),
            total == cs.len(),
            j <= total,
            names.wf(),
            forall|tg: u64| #[trigger] names.count_of(tg) == type_count(*t, cs.take(j as int), tg),
        decreases total - j,
    {
        let ele = childs[j];
        proof {
            lemma_child_in_bounds(*t, parent, ele);
            assert(names.count_of(t.tag_of(ele as int)) <= cs.take(j as int).len()) by {
                cs.take(j as int).lemma_filter_len(tag_pred(*t, t.tag_of(ele as int)));
            }
        }
        names.bump(t.tag(ele));
        proof {
            assert forall|tg: u64| #[trigger] names.count_of(tg) == type_count(
                *t,
                cs.take(j as int + 1),
                tg,
            ) by {
                assert(cs.take(j as int + 1) =~= cs.take(j as int).push(cs[j as int]));
                cs.take(j as int).lemma_filter_push(cs[j as int], tag_pred(*t, tg));
                if tg == t.tag_of(ele as int) {
                    assert(tag_pred(*t, tg)(cs[j as int]));
                } else {
                    assert(!tag_pred(*t, tg)(cs[j as int]));
                }
            }
        }
        j = j + 1;
    }
    proof {
        assert(cs.take(total as int) =~= cs);
    }
    let mut node_indexs: Vec<usize> = Vec::new();
    let mut k: usize = 0;
    while k < total
        invariant
            t.wf(),
            (parent as int) < t.len(),
            cs == childs@,
            cs == t.element_children(parent as int),
            sorted_strict(cs),
            total == cs.len(),
            k <= total,
            names.wf(),
            forall|tg: u64| #[trigger] names.count_of(tg) == type_count(*t, cs, tg),
            sorted_strict(node_indexs@),
            forall|q: int|
                0 <= q < k ==> (node_indexs@.contains(#[trigger] cs[q]) <==> type_count(
                    *t,
                    cs,
                    t.tag_of(cs[q] as int),
                ) == 1),
            forall|c: usize|
                node_indexs@.contains(c) ==> exists|q: int| 0 <= q < k && cs[q] == c,
        decreases total - k,
    {
        let ele = childs[k];
        proof {
            lemma_child_in_bounds(*t, parent, ele);
        }
        let c = names.get(t.tag(ele));
        let ghost old_hits = node_indexs@;
        if c == 1 {
            node_indexs.push(ele);
        }
        proof {
            if c == 1 {
                assert(node_indexs@ == old_hits.push(ele));
                assert forall|cc: usize| node_indexs@.contains(cc) implies exists|q: int|
                    0 <= q < k + 1 && cs[q] == cc by {
                    let w = choose|w: int| 0 <= w < node_indexs@.len() && node_indexs@[w] == cc;
                    if w < old_hits.len() {
                        assert(old_hits[w] == cc);
                        assert(old_hits.contains(cc));
                    } else {
                        assert(cs[k as int] == cc);
                    }
                }
                assert(sorted_strict(node_indexs@)) by {
                    assert forall|q1: int, q2: int|
                        0 <= q1 < q2 < node_indexs@.len() implies node_indexs@[q1]
                        < node_indexs@[q2] by {
                        if q2 == node_indexs@.len() - 1 {
                            assert(old_hits[q1] == node_indexs@[q1]);
                            assert(old_hits.contains(old_hits[q1]));
                            let w = choose|w: int| 0 <= w < k && cs[w] == old_hits[q1];
                            assert(cs[w] < cs[k as int]);
                        }
                    }
                }
            }
            assert forall|q: int|
                0 <= q < k + 1 implies (node_indexs@.contains(#[trigger] cs[q]) <==> type_count(
                *t,
                cs,
                t.tag_of(cs[q] as int),
            ) == 1) by {
                if q < k {
                    assert(cs[q] < cs[k as int]);
                    if c == 1 {
                        assert(node_indexs@.contains(cs[q]) <==> old_hits.contains(cs[q])) by {
                            if old_hits.contains(cs[q]) {
                                let w = choose|w: int|
                                    0 <= w < old_hits.len() && old_hits[w] == cs[q];
                                assert(node_indexs@[w] == cs[q]);
                            }
                            if node_indexs@.contains(cs[q]) {
                                let w = choose|w: int|
                                    0 <= w < node_indexs@.len() && node_indexs@[w] == cs[q];
                                assert(w < old_hits.len());
                                assert(old_hits[w] == cs[q]);
                            }
                        }
                    }
                } else {
                    if c == 1 {
                        assert(node_indexs@[node_indexs@.len() - 1] == cs[q]);
                    } else {
                        if node_indexs@.contains(cs[q]) {
                            let w = choose|w: int| 0 <= w < k && cs[w] == cs[q];
                            lemma_sorted_strict_injective(cs, w, q);
                        }
                    }
                }
            }
        }
        k = k + 1;
    }
    node_indexs
}

/// Bulk mode for `only-of-type`: groups the candidate sequence by shared
/// parent and keeps, in document order, exactly the candidates whose tag
/// occurs exactly once among all of their parent's element children.
pub fn only_of_type_filter(t: &Tree, eles: &Vec<usize>) -> (result: Vec<usize>)
    requires
        t.wf(),
        valid_candidates(*t, eles@),
    ensures
        result@ == eles@.filter(only_of_type_pred(*t)),
{
    let ghost gpred = only_of_type_pred(*t);
    let groups = group_siblings(t, eles);
    let mut result: Vec<usize> = Vec::new();
    let ghost mut prev_end: int = 0;
    let mut gi: usize = 0;
    proof {
        assert(eles@.subrange(0, 0).filter(gpred) =~= Seq::<usize>::empty()) by {
            assert(eles@.subrange(0, 0) =~= Seq::<usize>::empty());
            Seq::<usize>::empty().lemma_filter_len(gpred);
        }
    }
    while gi < groups.len()
        invariant
            t.wf(),
            valid_candidates(*t, eles@),
            groups_ok(*t, eles@, groups@),
            gi <= groups@.len(),
            0 <= prev_end <= eles@.len(),
            gi == 0 ==> prev_end == 0,
            gi > 0 ==> prev_end == groups@[gi - 1].end,
            gpred == only_of_type_pred(*t),
            result@ == eles@.subrange(0, prev_end).filter(gpred),
        decreases groups@.len() - gi,
    {
        let g = groups[gi];
        proof {
            assert(group_ok(*t, eles@, g));
            if gi > 0 {
                assert(groups@[gi - 1].end <= groups@[gi as int].start);
            }
            assert forall|q: int|
                prev_end <= q < g.start && t.parent_of(
                    #[trigger] eles@[q] as int,
                ).is_none() implies !gpred(eles@[q]) by {}
            crate::group::lemma_gap_filter_empty(
                *t,
                eles@,
                groups@,
                gi as int,
                prev_end,
                g.start as int,
                gpred,
            );
            crate::tree::lemma_filter_concat(eles@, 0, prev_end, g.start as int, gpred);
            assert(result@ =~= eles@.subrange(0, g.start as int).filter(gpred));
        }
        let childs = t.children(g.parent);
        proof {
            assert(t.wf_node(g.parent as int));
            crate::tree::lemma_filter_sorted_strict(
                t.child_nodes_of(g.parent as int),
                t.element_pred(),
            );
        }
        let node_indexs = collect_only_type_hits(t, g.parent, &childs);
        let ghost before = result@;
        collect_avail_name_eles(&node_indexs, eles, g.start, g.end, &mut result);
        proof {
            let cs = childs@;
            let sub = eles@.subrange(g.start as int, g.end as int);
            let p1 = contained_pred(node_indexs@);
            assert forall|q: int| 0 <= q < sub.len() implies (p1(#[trigger] sub[q]) <==> gpred(
                sub[q],
            )) by {
                let e = sub[q];
                assert(e == eles@[g.start + q]);
                assert(t.parent_of(e as int) == Some(g.parent));
                lemma_child_membership(*t, g.parent, e);
                let je = index_in(cs, e);
                assert(cs[je] == e);
                if p1(e) {
                    assert(node_indexs@.contains(cs[je]));
                    assert(type_count(*t, cs, t.tag_of(cs[je] as int)) == 1);
                    assert(0 <= je < cs.len() && cs[je] == e && type_count(
                        *t,
                        cs,
                        t.tag_of(e as int),
                    ) == 1);
                    assert(only_of_type_at(*t, g.parent, e));
                    assert(gpred(e));
                }
                if gpred(e) {
                    assert(only_of_type_at(*t, g.parent, e));
                    let j = choose|j: int|
                        0 <= j < cs.len() && cs[j] == e && type_count(
                            *t,
                            cs,
                            t.tag_of(e as int),
                        ) == 1;
                    lemma_sorted_strict_injective(cs, j, je);
                    assert(node_indexs@.contains(cs[je]));
                    assert(p1(e));
                }
            }
            lemma_filter_equivalent(sub, p1, gpred);
            assert(result@ =~= before + sub.filter(gpred));
            crate::tree::lemma_filter_concat(eles@, 0, g.start as int, g.end as int, gpred);
            prev_end = g.end as int;
            assert(result@ =~= eles@.subrange(0, prev_end).filter(gpred));
        }
        gi = gi + 1;
    }
    proof {
        assert forall|q: int|
            prev_end <= q < eles@.len() && t.parent_of(
                #[trigger] eles@[q] as int,
            ).is_none() implies !gpred(eles@[q]) by {}
        crate::group::lemma_gap_filter_empty(
            *t,
            eles@,
            groups@,
            groups@.len() as int,
            prev_end,
            eles@.len() as int,
            gpred,
        );
        crate::tree::lemma_filter_concat(eles@, 0, prev_end, eles@.len() as int, gpred);
        assert(eles@.subrange(0, eles@.len() as int) =~= eles@);
        assert(result@ =~= eles@.filter(gpred));
    }
    result
}

} // verus!
