use barnes_hut::grid::Cell;
use barnes_hut::quadtree::{Quadtree, ROOT};
use barnes_hut::walk::Interaction;

fn scattered(count: usize) -> Vec<Cell> {
    let mut s: u64 = 99;
    let mut cells = Vec::new();
    for _ in 0..count {
        s = s.wrapping_mul(6364136223846793005).wrapping_add(1442695040888963407);
        let x = (s >> 32) as u32;
        s = s.wrapping_mul(6364136223846793005).wrapping_add(1442695040888963407);
        cells.push(Cell { x, y: (s >> 32) as u32 });
    }
    cells
}

/// The bodies that the terms stand for, sorted.
fn covered(t: &Quadtree, terms: &[Interaction]) -> Vec<usize> {
    let mut out = Vec::new();
    for term in terms {
        match *term {
            Interaction::Body(b) => out.push(b),
            Interaction::Node(i) => out.extend_from_slice(&t.order[t.nodes[i].start..t.nodes[i].end]),
        }
    }
    out.sort();
    out
}

#[test]
fn opening_every_branch_gives_each_body_once() {
    let cells = scattered(200);
    let t = Quadtree::build(&cells, 4);
    let terms = t.interactions(|_| true);
    assert_eq!(terms.len(), 200);
    let mut bodies: Vec<usize> = terms
        .iter()
        .map(|term| match *term {
            Interaction::Body(b) => b,
            Interaction::Node(_) => panic!("a branch was taken whole"),
        })
        .collect();
    bodies.sort();
    assert_eq!(bodies, (0..200).collect::<Vec<_>>());
}

#[test]
fn opening_no_branch_takes_the_root_whole() {
    let cells = scattered(50);
    let t = Quadtree::build(&cells, 4);
    assert_eq!(t.interactions(|_| false), vec![Interaction::Node(ROOT)]);
}

#[test]
fn walk_of_a_leaf_root_lists_its_bodies() {
    let cells = scattered(3);
    let t = Quadtree::build(&cells, 8);
    let terms = t.interactions(|_| false);
    assert_eq!(covered(&t, &terms), vec![0, 1, 2]);
    assert!(terms.iter().all(|term| matches!(term, Interaction::Body(_))));
}

#[test]
fn partial_opening_counts_every_body_once() {
    let cells = scattered(300);
    let t = Quadtree::build(&cells, 2);
    let terms = t.interactions(|i| i % 3 != 1);
    assert_eq!(covered(&t, &terms), (0..300).collect::<Vec<_>>());
    for term in &terms {
        if let Interaction::Node(i) = *term {
            assert_eq!(i % 3, 1);
            assert!(t.nodes[i].is_branch());
        }
    }
}

#[test]
fn walk_of_no_bodies_is_empty() {
    let t = Quadtree::build(&vec![], 1);
    assert!(t.interactions(|_| true).is_empty());
}

#[test]
fn terms_are_reached_only_through_opened_branches() {
    let cells = scattered(300);
    let t = Quadtree::build(&cells, 2);
    let mut parent = vec![usize::MAX; t.nodes.len()];
    let mut leaf_of = vec![usize::MAX; cells.len()];
    for (i, nd) in t.nodes.iter().enumerate() {
        if nd.is_branch() {
            for q in 0..4 {
                parent[nd.children + q] = i;
            }
        } else {
            for k in nd.start..nd.end {
                leaf_of[t.order[k]] = i;
            }
        }
    }
    let descend = |i: usize| i % 3 != 1;
    let terms = t.interactions(descend);
    for term in terms {
        let mut j = match term {
            Interaction::Body(b) => leaf_of[b],
            Interaction::Node(i) => i,
        };
        while j != ROOT {
            j = parent[j];
            assert!(descend(j));
        }
    }
}
