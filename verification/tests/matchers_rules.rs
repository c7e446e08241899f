use pseudo_select::matcher::{build_matcher, build_nth_matcher, matcher_all, matcher_single, Matcher};
use pseudo_select::rules::{init, ParamSlots, RuleItem, RuleKind, PRIORITY_PSEUDO_SELECTOR};
use pseudo_select::tree::{Node, NodeKind, Tree};

const DIV: u64 = 0;
const SPAN: u64 = 1;

fn node(kind: NodeKind, tag: u64, parent: Option<usize>, child_nodes: Vec<usize>) -> Node {
    Node {
        kind,
        tag,
        parent,
        child_nodes,
    }
}

/// Two families under one root, with mixed tags and a comment in between.
fn two_family_tree() -> Tree {
    Tree {
        nodes: vec![
            node(NodeKind::Element, DIV, None, vec![1, 5]),
            node(NodeKind::Element, DIV, Some(0), vec![2, 3, 4]),
            node(NodeKind::Element, DIV, Some(1), vec![]),
            node(NodeKind::Element, SPAN, Some(1), vec![]),
            node(NodeKind::Element, DIV, Some(1), vec![]),
            node(NodeKind::Element, SPAN, Some(0), vec![6, 7]),
            node(NodeKind::Comment, 0, Some(5), vec![]),
            node(NodeKind::Element, SPAN, Some(5), vec![]),
        ],
    }
}

fn element_ids(t: &Tree) -> Vec<usize> {
    let mut out = Vec::new();
    for i in 0..t.nodes.len() {
        if matches!(t.nodes[i].kind, NodeKind::Element) {
            out.push(i);
        }
    }
    out
}

fn sample_matchers() -> Vec<Matcher> {
    vec![
        Matcher::Empty,
        Matcher::NthChild {
            asc: true,
            step: None,
            offset: 2,
        },
        Matcher::NthChild {
            asc: false,
            step: Some(2),
            offset: 0,
        },
        Matcher::FirstOrLastChild { asc: true },
        Matcher::FirstOrLastChild { asc: false },
        Matcher::NthOfType {
            asc: true,
            step: None,
            offset: 1,
        },
        Matcher::NthOfType {
            asc: false,
            step: Some(2),
            offset: 1,
        },
        Matcher::FirstOrLastOfType { asc: true },
        Matcher::FirstOrLastOfType { asc: false },
        Matcher::OnlyChild,
        Matcher::OnlyOfType,
    ]
}

#[test]
fn specified_mode_agrees_with_bulk_mode() {
    // the agreement law on concrete values: for every sample matcher and
    // every element, the single-element test equals membership in the
    // bulk-filtered result over the full element sequence
    let t = two_family_tree();
    let eles = element_ids(&t);
    for m in sample_matchers() {
        let bulk = matcher_all(&t, &m, &eles);
        for &e in &eles {
            let single = matcher_single(&t, &m, e);
            assert_eq!(single, bulk.contains(&e), "matcher {:?} element {}", m, e);
        }
    }
}

#[test]
fn build_nth_matcher_normalizes_parameters() {
    let m = build_nth_matcher(false, true, None, Some(3));
    assert!(matches!(
        m,
        Matcher::NthChild {
            asc: true,
            step: None,
            offset: 3
        }
    ));
    let m = build_nth_matcher(true, false, Some(2), None);
    assert!(matches!(
        m,
        Matcher::NthOfType {
            asc: false,
            step: Some(2),
            offset: 0
        }
    ));
    let m = build_nth_matcher(false, false, Some(-1), Some(3));
    assert!(matches!(
        m,
        Matcher::NthChild {
            asc: false,
            step: Some(-1),
            offset: 3
        }
    ));
}

#[test]
fn bulk_mode_examples() {
    let t = two_family_tree();
    let eles = element_ids(&t);
    // nth-child(2) within each family
    let m = Matcher::NthChild {
        asc: true,
        step: None,
        offset: 2,
    };
    assert_eq!(matcher_all(&t, &m, &eles), vec![3, 5]);
    // only-of-type: each family's unique tags; in 1's family only the span
    let m = Matcher::OnlyOfType;
    assert_eq!(matcher_all(&t, &m, &eles), vec![1, 3, 5, 7]);
    // empty: the childless elements, and 5 (whose only child nodes would
    // disqualify it: it holds a comment and an element)
    let m = Matcher::Empty;
    assert_eq!(matcher_all(&t, &m, &eles), vec![2, 3, 4, 7]);
}

#[test]
fn init_registers_the_sixteen_rules_in_order() {
    let mut rules: Vec<RuleItem> = Vec::new();
    init(&mut rules);
    assert_eq!(rules.len(), 16);
    let names: Vec<&str> = rules.iter().map(|r| r.name).collect();
    assert_eq!(
        names,
        vec![
            ":empty",
            ":first-child",
            ":last-child",
            ":only-child",
            ":nth-child({spaces}{nth}{spaces})",
            ":nth-last-child({spaces}{nth}{spaces})",
            ":first-of-type",
            ":last-of-type",
            ":nth-of-type({spaces}{nth}{spaces})",
            ":nth-last-of-type({spaces}{nth}{spaces})",
            ":only-of-type",
            ":not",
            ":contains",
            ":header",
            ":input",
            ":submit",
        ]
    );
    for r in &rules {
        assert_eq!(r.priority, PRIORITY_PSEUDO_SELECTOR);
    }
    assert!(matches!(rules[0].kind, RuleKind::Empty));
    assert!(matches!(
        rules[1].kind,
        RuleKind::FirstOrLastChild { asc: true }
    ));
    assert!(matches!(
        rules[2].kind,
        RuleKind::FirstOrLastChild { asc: false }
    ));
    assert!(matches!(rules[3].kind, RuleKind::OnlyChild));
    assert!(matches!(rules[4].kind, RuleKind::NthChild { asc: true }));
    assert!(matches!(rules[5].kind, RuleKind::NthChild { asc: false }));
    assert!(matches!(
        rules[6].kind,
        RuleKind::FirstOrLastOfType { asc: true }
    ));
    assert!(matches!(
        rules[7].kind,
        RuleKind::FirstOrLastOfType { asc: false }
    ));
    assert!(matches!(rules[8].kind, RuleKind::NthOfType { asc: true }));
    assert!(matches!(rules[9].kind, RuleKind::NthOfType { asc: false }));
    assert!(matches!(rules[10].kind, RuleKind::OnlyOfType));
    assert!(matches!(rules[11].kind, RuleKind::Not));
    assert!(matches!(rules[12].kind, RuleKind::Contains));
    assert!(matches!(rules[13].kind, RuleKind::Alias));
    assert_eq!(rules[13].alias, Some("h1,h2,h3,h4,h5,h6"));
    assert_eq!(rules[14].alias, Some("input,select,textarea,button"));
    assert_eq!(
        rules[15].alias,
        Some("input[type='submit'],button[type='submit']")
    );
    assert_eq!(rules[11].params, ParamSlots::Selector);
    assert_eq!(rules[12].params, ParamSlots::Regexp);
    assert_eq!(rules[4].params, ParamSlots::Nth);
}

#[test]
fn specified_fast_path_handles_literal_offsets() {
    let t = two_family_tree();
    // element 3 is the 2nd child of 1, and the only span there
    let m = Matcher::NthChild {
        asc: true,
        step: None,
        offset: 2,
    };
    assert!(matcher_single(&t, &m, 3));
    let m = Matcher::NthChild {
        asc: false,
        step: None,
        offset: 2,
    };
    assert!(matcher_single(&t, &m, 3));
    let m = Matcher::NthOfType {
        asc: true,
        step: None,
        offset: 1,
    };
    assert!(matcher_single(&t, &m, 3));
    assert!(!matcher_single(&t, &m, 4));
    // the root has no parent: no positional predicate holds of it
    let m = Matcher::FirstOrLastChild { asc: true };
    assert!(!matcher_single(&t, &m, 0));
}

#[test]
fn formula_fallback_matches_bulk_semantics() {
    let t = two_family_tree();
    // "2n" descending over the three children of 1: positions 2 and 4 from
    // the end exist only for the 1st child (2nd from end is 3)
    let m = Matcher::NthChild {
        asc: false,
        step: Some(2),
        offset: 0,
    };
    assert!(matcher_single(&t, &m, 3));
    assert!(!matcher_single(&t, &m, 4));
    assert!(!matcher_single(&t, &m, 2));
}

#[test]
fn build_matcher_follows_rule_kinds() {
    let mut rules: Vec<RuleItem> = Vec::new();
    init(&mut rules);
    // the delegating and alias rules build no structural matcher
    assert!(build_matcher(rules[11].kind, None, None).is_none());
    assert!(build_matcher(rules[12].kind, None, None).is_none());
    assert!(build_matcher(rules[13].kind, None, None).is_none());
    // nth-child with a literal offset
    let m = build_matcher(rules[4].kind, None, Some(2)).unwrap();
    assert!(matches!(
        m,
        Matcher::NthChild {
            asc: true,
            step: None,
            offset: 2
        }
    ));
    // nth-last-of-type with a formula
    let m = build_matcher(rules[9].kind, Some(2), Some(1)).unwrap();
    assert!(matches!(
        m,
        Matcher::NthOfType {
            asc: false,
            step: Some(2),
            offset: 1
        }
    ));
    assert!(matches!(
        build_matcher(rules[0].kind, None, None).unwrap(),
        Matcher::Empty
    ));
    assert!(matches!(
        build_matcher(rules[3].kind, None, None).unwrap(),
        Matcher::OnlyChild
    ));
}
