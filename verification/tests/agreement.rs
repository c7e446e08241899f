use pseudo_select::matcher::{matcher_all, matcher_single, Matcher};
use pseudo_select::tree::{Node, NodeKind, Tree};

/// A small deterministic generator, enough to draw varied tree shapes.
struct Lcg(u64);

impl Lcg {
    fn next(&mut self) -> u64 {
        self.0 = self
            .0
            .wrapping_mul(6364136223846793005)
            .wrapping_add(1442695040888963407);
        self.0 >> 33
    }

    fn below(&mut self, bound: u64) -> u64 {
        self.next() % bound
    }
}

/// Draws a well-formed tree: each later node hangs under some earlier one,
/// so ids ascend in document order and child lists stay sorted.
fn random_tree(rng: &mut Lcg, size: usize) -> Tree {
    let mut nodes = vec![Node {
        kind: NodeKind::Element,
        tag: 0,
        parent: None,
        child_nodes: vec![],
    }];
    for i in 1..size {
        let parent = rng.below(i as u64) as usize;
        let kind = match rng.below(5) {
            0 => NodeKind::Text,
            1 => NodeKind::Comment,
            _ => NodeKind::Element,
        };
        let tag = rng.below(3);
        nodes[parent].child_nodes.push(i);
        nodes.push(Node {
            kind,
            tag,
            parent: Some(parent),
            child_nodes: vec![],
        });
    }
    Tree { nodes }
}

fn element_ids(t: &Tree) -> Vec<usize> {
    let mut out = Vec::new();
    for i in 0..t.nodes.len() {
        if matches!(t.nodes[i].kind, NodeKind::Element) {
            out.push(i);
        }
    }
    out
}

fn all_matchers() -> Vec<Matcher> {
    let mut out = vec![
        Matcher::Empty,
        Matcher::OnlyChild,
        Matcher::OnlyOfType,
    ];
    for asc in [true, false] {
        out.push(Matcher::FirstOrLastChild { asc });
        out.push(Matcher::FirstOrLastOfType { asc });
        for offset in [-1i64, 0, 1, 2, 3] {
            out.push(Matcher::NthChild {
                asc,
                step: None,
                offset,
            });
            out.push(Matcher::NthOfType {
                asc,
                step: None,
                offset,
            });
        }
        for (step, offset) in [(2i64, 0i64), (2, 1), (3, -1), (-1, 3), (-2, 4)] {
            out.push(Matcher::NthChild {
                asc,
                step: Some(step),
                offset,
            });
            out.push(Matcher::NthOfType {
                asc,
                step: Some(step),
                offset,
            });
        }
    }
    out
}

#[test]
fn agreement_on_randomized_trees() {
    // for every predicate and every element, specified-mode single-element
    // evaluation equals membership of that element in the bulk-mode filtered
    // result over the candidate sequence of all elements
    let mut rng = Lcg(0x5eed);
    for round in 0..12 {
        let size = 2 + (round % 5) * 7 + round;
        let t = random_tree(&mut rng, size);
        let eles = element_ids(&t);
        for m in all_matchers() {
            let bulk = matcher_all(&t, &m, &eles);
            // the bulk result is an ordered subset of the candidates
            let mut last: Option<usize> = None;
            for &r in &bulk {
                assert!(eles.contains(&r));
                if let Some(prev) = last {
                    assert!(prev < r);
                }
                last = Some(r);
            }
            for &e in &eles {
                assert_eq!(
                    matcher_single(&t, &m, e),
                    bulk.contains(&e),
                    "matcher {:?} element {} tree size {}",
                    m,
                    e,
                    size
                );
            }
        }
    }
}
