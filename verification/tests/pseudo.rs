use pseudo_select::group::group_siblings;
use pseudo_select::nth::get_allowed_indexs;
use pseudo_select::nth_child::{first_or_last_child_filter, nth_child_filter, nth_child_specified};
use pseudo_select::of_type::{
    first_or_last_of_type_filter, nth_of_type_filter, nth_of_type_specified, only_of_type_filter,
};
use pseudo_select::only::{is_empty_element, only_child_filter};
use pseudo_select::tree::{Node, NodeKind, Tree};

const DIV: u64 = 0;
const SPAN: u64 = 1;

fn node(kind: NodeKind, tag: u64, parent: Option<usize>, child_nodes: Vec<usize>) -> Node {
    Node {
        kind,
        tag,
        parent,
        child_nodes,
    }
}

/// One parent (id 0) with five element children, ids 1 through 5, carrying
/// the tags given.
fn flat_tree(tags: [u64; 5]) -> Tree {
    let mut nodes = vec![node(NodeKind::Element, DIV, None, vec![1, 2, 3, 4, 5])];
    for tag in tags.iter() {
        nodes.push(node(NodeKind::Element, *tag, Some(0), vec![]));
    }
    Tree { nodes }
}

fn all_children() -> Vec<usize> {
    vec![1, 2, 3, 4, 5]
}

#[test]
fn nth_child_formula_every_second() {
    // the formula "2n" (every 2nd, 1-based) selects the 2nd and 4th children
    let t = flat_tree([DIV, DIV, DIV, DIV, DIV]);
    let found = nth_child_filter(&t, &all_children(), true, Some(2), None);
    assert_eq!(found, vec![2, 4]);
}

#[test]
fn allowed_indexs_formula_every_second() {
    let allow = get_allowed_indexs(Some(2), None, 5);
    assert_eq!(allow, vec![1, 3]);
}

#[test]
fn allowed_indexs_literal_and_degenerate() {
    assert_eq!(get_allowed_indexs(None, Some(3), 5), vec![2]);
    assert_eq!(get_allowed_indexs(None, Some(0), 5), Vec::<usize>::new());
    assert_eq!(get_allowed_indexs(None, Some(-2), 5), Vec::<usize>::new());
    assert_eq!(get_allowed_indexs(None, Some(9), 5), Vec::<usize>::new());
    // "-n+2": the first two positions
    assert_eq!(get_allowed_indexs(Some(-1), Some(2), 5), vec![0, 1]);
    // a zero step behaves as the literal offset alone
    assert_eq!(get_allowed_indexs(Some(0), Some(2), 5), vec![1]);
}

#[test]
fn nth_last_child_one_equals_last_child() {
    let t = flat_tree([DIV, SPAN, DIV, DIV, SPAN]);
    let last = first_or_last_child_filter(&t, &all_children(), false);
    let nth_last = nth_child_filter(&t, &all_children(), false, None, Some(1));
    assert_eq!(last, vec![5]);
    assert_eq!(nth_last, last);
}

#[test]
fn nth_last_child_one_equals_last_child_two_parents() {
    // 0 -> {1, 4}; 1 -> {2, 3}; 4 -> {5, 6}
    let t = Tree {
        nodes: vec![
            node(NodeKind::Element, DIV, None, vec![1, 4]),
            node(NodeKind::Element, DIV, Some(0), vec![2, 3]),
            node(NodeKind::Element, SPAN, Some(1), vec![]),
            node(NodeKind::Element, SPAN, Some(1), vec![]),
            node(NodeKind::Element, DIV, Some(0), vec![5, 6]),
            node(NodeKind::Element, SPAN, Some(4), vec![]),
            node(NodeKind::Element, DIV, Some(4), vec![]),
        ],
    };
    let cands = vec![2, 3, 5, 6];
    let last = first_or_last_child_filter(&t, &cands, false);
    let nth_last = nth_child_filter(&t, &cands, false, None, Some(1));
    assert_eq!(last, vec![3, 6]);
    assert_eq!(nth_last, last);
}

#[test]
fn first_child_selects_heads_of_each_family() {
    let t = flat_tree([DIV, SPAN, DIV, DIV, SPAN]);
    let first = first_or_last_child_filter(&t, &all_children(), true);
    assert_eq!(first, vec![1]);
}

#[test]
fn nth_of_type_one_selects_first_of_each_tag() {
    // tags [div, span, div, div, span]: the first div and the first span
    let t = flat_tree([DIV, SPAN, DIV, DIV, SPAN]);
    let found = nth_of_type_filter(&t, &all_children(), true, None, Some(1));
    assert_eq!(found, vec![1, 2]);
}

#[test]
fn nth_last_of_type_one_selects_last_of_each_tag() {
    let t = flat_tree([DIV, SPAN, DIV, DIV, SPAN]);
    let found = nth_of_type_filter(&t, &all_children(), false, None, Some(1));
    assert_eq!(found, vec![4, 5]);
}

#[test]
fn nth_of_type_formula_every_second_per_tag() {
    // of-type positions interleave: divs at 1,3,4 and spans at 2,5;
    // "2n" per tag keeps the 2nd div (3) and the 2nd span (5)
    let t = flat_tree([DIV, SPAN, DIV, DIV, SPAN]);
    let found = nth_of_type_filter(&t, &all_children(), true, Some(2), None);
    assert_eq!(found, vec![3, 5]);
}

#[test]
fn first_and_last_of_type_filters() {
    let t = flat_tree([DIV, SPAN, DIV, DIV, SPAN]);
    assert_eq!(
        first_or_last_of_type_filter(&t, &all_children(), true),
        vec![1, 2]
    );
    assert_eq!(
        first_or_last_of_type_filter(&t, &all_children(), false),
        vec![4, 5]
    );
}

#[test]
fn only_of_type_selects_unique_tags() {
    // tags [div, span, div]: only the span's tag occurs once
    let mut nodes = vec![node(NodeKind::Element, DIV, None, vec![1, 2, 3])];
    nodes.push(node(NodeKind::Element, DIV, Some(0), vec![]));
    nodes.push(node(NodeKind::Element, SPAN, Some(0), vec![]));
    nodes.push(node(NodeKind::Element, DIV, Some(0), vec![]));
    let t = Tree { nodes };
    let found = only_of_type_filter(&t, &vec![1, 2, 3]);
    assert_eq!(found, vec![2]);
}

#[test]
fn empty_holds_for_comment_only_children() {
    // 1 holds two comments; 4 holds one whitespace text node
    let t = Tree {
        nodes: vec![
            node(NodeKind::Element, DIV, None, vec![1, 4]),
            node(NodeKind::Element, DIV, Some(0), vec![2, 3]),
            node(NodeKind::Comment, 0, Some(1), vec![]),
            node(NodeKind::Comment, 0, Some(1), vec![]),
            node(NodeKind::Element, DIV, Some(0), vec![5]),
            node(NodeKind::Text, 0, Some(4), vec![]),
        ],
    };
    assert!(is_empty_element(&t, 1));
    assert!(!is_empty_element(&t, 4));
}

#[test]
fn empty_holds_for_childless_element() {
    let t = Tree {
        nodes: vec![node(NodeKind::Element, DIV, None, vec![])],
    };
    assert!(is_empty_element(&t, 0));
}

#[test]
fn only_child_counts_element_kind_children_only() {
    // 1 is the single element child of 0; the text and comment don't count
    let t = Tree {
        nodes: vec![
            node(NodeKind::Element, DIV, None, vec![1, 2, 3]),
            node(NodeKind::Element, SPAN, Some(0), vec![]),
            node(NodeKind::Text, 0, Some(0), vec![]),
            node(NodeKind::Comment, 0, Some(0), vec![]),
        ],
    };
    assert_eq!(only_child_filter(&t, &vec![1]), vec![1]);
}

#[test]
fn only_child_rejects_siblings() {
    let t = flat_tree([DIV, DIV, DIV, DIV, DIV]);
    assert_eq!(only_child_filter(&t, &all_children()), Vec::<usize>::new());
}

#[test]
fn grouping_splits_contiguous_same_parent_runs() {
    // 0 -> {1, 4}; 1 -> {2, 3}; 4 -> {5, 6}
    let t = Tree {
        nodes: vec![
            node(NodeKind::Element, DIV, None, vec![1, 4]),
            node(NodeKind::Element, DIV, Some(0), vec![2, 3]),
            node(NodeKind::Element, DIV, Some(1), vec![]),
            node(NodeKind::Element, DIV, Some(1), vec![]),
            node(NodeKind::Element, DIV, Some(0), vec![5, 6]),
            node(NodeKind::Element, DIV, Some(4), vec![]),
            node(NodeKind::Element, DIV, Some(4), vec![]),
        ],
    };
    let groups = group_siblings(&t, &vec![2, 3, 5, 6]);
    assert_eq!(groups.len(), 2);
    assert_eq!((groups[0].start, groups[0].end, groups[0].parent), (0, 2, 1));
    assert_eq!((groups[1].start, groups[1].end, groups[1].parent), (2, 4, 4));
}

#[test]
fn grouping_drops_parentless_candidates() {
    let t = Tree {
        nodes: vec![
            node(NodeKind::Element, DIV, None, vec![1, 2]),
            node(NodeKind::Element, DIV, Some(0), vec![]),
            node(NodeKind::Element, DIV, Some(0), vec![]),
        ],
    };
    // the root has no parent: its index is covered by no group
    let groups = group_siblings(&t, &vec![0, 1, 2]);
    assert_eq!(groups.len(), 1);
    assert_eq!((groups[0].start, groups[0].end, groups[0].parent), (1, 3, 0));
}

#[test]
fn nth_child_partial_candidate_range() {
    // only three of the five children are candidates: positions still count
    // over all element children of the parent
    let t = flat_tree([DIV, DIV, DIV, DIV, DIV]);
    let found = nth_child_filter(&t, &vec![2, 3, 5], true, Some(2), None);
    // allowed positions are the 2nd and 4th children: ids 2 and 4; only 2
    // is a candidate
    assert_eq!(found, vec![2]);
}

#[test]
fn nth_child_empty_candidates() {
    let t = flat_tree([DIV, DIV, DIV, DIV, DIV]);
    assert_eq!(
        nth_child_filter(&t, &Vec::new(), true, Some(2), None),
        Vec::<usize>::new()
    );
}

#[test]
fn nth_child_specified_walks_from_either_end() {
    let t = flat_tree([DIV, SPAN, DIV, DIV, SPAN]);
    assert!(nth_child_specified(&t, 0, true, 2, 2));
    assert!(!nth_child_specified(&t, 0, true, 2, 3));
    assert!(nth_child_specified(&t, 0, false, 1, 5));
    assert!(!nth_child_specified(&t, 0, false, 1, 1));
    assert!(!nth_child_specified(&t, 0, true, 0, 1));
    assert!(!nth_child_specified(&t, 0, true, -3, 1));
}

#[test]
fn nth_of_type_specified_scopes_counts_per_tag() {
    let t = flat_tree([DIV, SPAN, DIV, DIV, SPAN]);
    // the 2nd div is the 3rd child
    assert!(nth_of_type_specified(&t, 0, true, 2, 3));
    assert!(!nth_of_type_specified(&t, 0, true, 2, 2));
    // the last span is the 5th child
    assert!(nth_of_type_specified(&t, 0, false, 1, 5));
    assert!(nth_of_type_specified(&t, 0, false, 2, 2));
    assert!(!nth_of_type_specified(&t, 0, true, 0, 1));
}

#[test]
fn empty_allowed_set_gives_empty_result() {
    // a zero or negative literal offset selects no position at all
    let t = flat_tree([DIV, DIV, DIV, DIV, DIV]);
    assert_eq!(
        nth_child_filter(&t, &all_children(), true, None, Some(0)),
        Vec::<usize>::new()
    );
    assert_eq!(
        nth_of_type_filter(&t, &all_children(), false, None, Some(-1)),
        Vec::<usize>::new()
    );
}

#[test]
fn specified_mode_on_childless_parent() {
    let t = Tree {
        nodes: vec![node(NodeKind::Element, DIV, None, vec![])],
    };
    assert!(!nth_child_specified(&t, 0, true, 1, 0));
    assert!(!nth_of_type_specified(&t, 0, false, 1, 0));
}
