use barnes_hut::grid::{Axis, Cell, Quad, GRID_LEVEL, GRID_SIZE};
use barnes_hut::partition::partition;
use barnes_hut::quadtree::{Node, Quadtree, ROOT};

fn cell(x: u32, y: u32) -> Cell {
    Cell { x, y }
}

fn sorted(v: &[usize]) -> Vec<usize> {
    let mut v = v.to_vec();
    v.sort();
    v
}

/// Checks the layout that `build` promises, node by node.
fn check_tree(t: &Quadtree, cells: &[Cell]) {
    let n = cells.len();
    assert_eq!(sorted(&t.order), (0..n).collect::<Vec<_>>());
    let root = &t.nodes[ROOT];
    assert_eq!((root.start, root.end), (0, n));
    assert_eq!(root.quad, Quad::root());
    for (i, nd) in t.nodes.iter().enumerate() {
        assert!(nd.start <= nd.end && nd.end <= n);
        let count = nd.end - nd.start;
        assert_eq!(nd.is_branch(), count > t.leaf_capacity && nd.quad.level > 0);
        for k in nd.start..nd.end {
            let c = cells[t.order[k]];
            let q = nd.quad;
            assert!(q.x <= c.x as u64 && (c.x as u64) < q.x + q.size);
            assert!(q.y <= c.y as u64 && (c.y as u64) < q.y + q.size);
        }
        if nd.is_branch() {
            let c = nd.children;
            assert!(c > i);
            assert_eq!(t.nodes[c].start, nd.start);
            assert_eq!(t.nodes[c + 3].end, nd.end);
            for q in 0..4 {
                assert_eq!(t.nodes[c + q].quad, nd.quad.child(q));
                if q < 3 {
                    assert_eq!(t.nodes[c + q].end, t.nodes[c + q + 1].start);
                }
            }
        }
    }
}

fn leaf_bodies(t: &Quadtree) -> Vec<usize> {
    let mut out = Vec::new();
    for nd in &t.nodes {
        if nd.is_leaf() {
            out.extend_from_slice(&t.order[nd.start..nd.end]);
        }
    }
    out
}

#[test]
fn partition_splits_range_and_keeps_entries() {
    let cells = vec![cell(5, 0), cell(1, 0), cell(9, 0), cell(3, 0), cell(7, 0), cell(2, 0)];
    let mut order = vec![0, 1, 2, 3, 4, 5];
    let mid = partition(&mut order, 1, 5, &cells, Axis::X, 6);
    assert_eq!(mid, 3);
    assert_eq!(order[0], 0);
    assert_eq!(order[5], 5);
    for k in 1..mid {
        assert!(cells[order[k]].x < 6);
    }
    for k in mid..5 {
        assert!(cells[order[k]].x >= 6);
    }
    assert_eq!(sorted(&order[1..5]), vec![1, 2, 3, 4]);
}

#[test]
fn partition_on_y_with_all_on_one_side() {
    let cells = vec![cell(0, 10), cell(0, 20), cell(0, 30)];
    let mut order = vec![2, 0, 1];
    assert_eq!(partition(&mut order, 0, 3, &cells, Axis::Y, 100), 3);
    assert_eq!(sorted(&order), vec![0, 1, 2]);
    assert_eq!(partition(&mut order, 0, 3, &cells, Axis::Y, 5), 0);
}

#[test]
fn partition_of_empty_range() {
    let cells = vec![cell(1, 1)];
    let mut order = vec![0];
    assert_eq!(partition(&mut order, 1, 1, &cells, Axis::X, 0), 1);
    assert_eq!(order, vec![0]);
}

#[test]
fn root_covers_the_grid() {
    let r = Quad::root();
    assert_eq!((r.x, r.y, r.size, r.level), (0, 0, GRID_SIZE, GRID_LEVEL));
    assert_eq!(r.split(Axis::X), 1 << 31);
}

#[test]
fn children_quarter_their_quad() {
    let r = Quad::root();
    let h = GRID_SIZE / 2;
    assert_eq!(r.child(0), Quad { x: 0, y: 0, size: h, level: 31 });
    assert_eq!(r.child(1), Quad { x: h, y: 0, size: h, level: 31 });
    assert_eq!(r.child(2), Quad { x: 0, y: h, size: h, level: 31 });
    assert_eq!(r.child(3), Quad { x: h, y: h, size: h, level: 31 });
}

#[test]
fn build_of_no_bodies_is_one_empty_leaf() {
    let t = Quadtree::build(&vec![], 1);
    assert_eq!(t.nodes.len(), 1);
    assert!(t.nodes[ROOT].is_leaf());
    assert!(t.nodes[ROOT].is_empty());
    assert!(t.order.is_empty());
}

#[test]
fn build_of_one_body_is_a_leaf() {
    let cells = vec![cell(17, 4)];
    let t = Quadtree::build(&cells, 1);
    assert_eq!(t.nodes.len(), 1);
    assert_eq!(t.order, vec![0]);
    check_tree(&t, &cells);
}

#[test]
fn build_of_four_corners_has_one_body_per_quadrant() {
    let m = u32::MAX;
    let cells = vec![cell(m, m), cell(0, 0), cell(0, m), cell(m, 0)];
    let t = Quadtree::build(&cells, 1);
    check_tree(&t, &cells);
    assert_eq!(t.nodes.len(), 5);
    assert_eq!(t.nodes[ROOT].children, 1);
    let firsts: Vec<usize> = (1..5).map(|c| t.order[t.nodes[c].start]).collect();
    assert_eq!(firsts, vec![1, 3, 2, 0]);
}

#[test]
fn build_splits_until_leaves_are_small() {
    let mut cells = Vec::new();
    let mut s: u64 = 12345;
    for _ in 0..300 {
        s = s.wrapping_mul(6364136223846793005).wrapping_add(1442695040888963407);
        let x = (s >> 32) as u32;
        s = s.wrapping_mul(6364136223846793005).wrapping_add(1442695040888963407);
        let y = (s >> 32) as u32;
        cells.push(cell(x, y));
    }
    for cap in [1, 4, 16] {
        let t = Quadtree::build(&cells, cap);
        check_tree(&t, &cells);
        assert_eq!(sorted(&leaf_bodies(&t)), (0..cells.len()).collect::<Vec<_>>());
    }
}

#[test]
fn build_stops_at_single_cells_for_coincident_bodies() {
    let cells = vec![cell(7, 7), cell(7, 7), cell(7, 7)];
    let t = Quadtree::build(&cells, 1);
    check_tree(&t, &cells);
    let deepest: Vec<&Node> = t.nodes.iter().filter(|n| n.end - n.start == 3 && n.is_leaf()).collect();
    assert_eq!(deepest.len(), 1);
    assert_eq!(deepest[0].quad, Quad { x: 7, y: 7, size: 1, level: 0 });
    assert_eq!(t.nodes.len(), 1 + 4 * GRID_LEVEL as usize);
}

#[test]
fn build_with_large_capacity_keeps_one_leaf() {
    let cells = vec![cell(1, 2), cell(3, 4), cell(5, 6)];
    let t = Quadtree::build(&cells, 3);
    assert_eq!(t.nodes.len(), 1);
    assert_eq!(t.order, vec![0, 1, 2]);
    let t = Quadtree::build(&cells, 2);
    check_tree(&t, &cells);
    assert!(t.nodes[ROOT].is_branch());
}

#[test]
fn leaf_depths_of_a_single_leaf() {
    let t = Quadtree::build(&vec![cell(3, 3)], 1);
    assert_eq!(t.leaf_depth_range(), (0, 0));
    assert_eq!(t.nodes[ROOT].depth(), 0);
}

#[test]
fn leaf_depths_of_four_corners() {
    let m = u32::MAX;
    let cells = vec![cell(m, m), cell(0, 0), cell(0, m), cell(m, 0)];
    let t = Quadtree::build(&cells, 1);
    assert_eq!(t.leaf_depth_range(), (1, 1));
}

#[test]
fn leaf_depths_of_coincident_bodies_reach_single_cells() {
    let cells = vec![cell(7, 7), cell(7, 7)];
    let t = Quadtree::build(&cells, 1);
    assert_eq!(t.leaf_depth_range(), (1, GRID_LEVEL as usize));
    for nd in &t.nodes {
        if nd.is_branch() {
            for q in 0..4 {
                assert_eq!(t.nodes[nd.children + q].depth(), nd.depth() + 1);
            }
        }
    }
}

/// Nodes shown for `lo..=hi`, found by walking from the root as a drawing pass would.
fn drawn_by_walk(t: &Quadtree, lo: usize, hi: usize) -> Vec<(usize, usize)> {
    let mut out = Vec::new();
    let mut stack = vec![(ROOT, 0usize)];
    while let Some((i, d)) = stack.pop() {
        let nd = &t.nodes[i];
        if nd.is_branch() && d < hi {
            for q in 0..4 {
                stack.push((nd.children + q, d + 1));
            }
        } else if d >= lo {
            out.push((i, d));
        }
    }
    out.sort();
    out
}

#[test]
fn nodes_to_draw_in_the_leaf_depth_range_are_the_leaves() {
    let m = u32::MAX;
    let cells = vec![cell(m, m), cell(0, 0), cell(0, m), cell(m, 0), cell(1, 1)];
    let t = Quadtree::build(&cells, 1);
    let (lo, hi) = t.depth_range_to_draw((0, 0));
    assert_eq!((lo, hi), t.leaf_depth_range());
    let drawn = t.nodes_to_draw(lo, hi);
    let leaves: Vec<usize> = (0..t.nodes.len()).filter(|&i| t.nodes[i].is_leaf()).collect();
    assert_eq!(drawn.iter().map(|&(i, _)| i).collect::<Vec<_>>(), leaves);
    for &(i, d) in &drawn {
        assert_eq!(d, t.nodes[i].depth());
    }
}

#[test]
fn nodes_to_draw_match_a_walk_from_the_root() {
    let mut cells = Vec::new();
    let mut s: u64 = 7;
    for _ in 0..120 {
        s = s.wrapping_mul(6364136223846793005).wrapping_add(1442695040888963407);
        let x = (s >> 40) as u32;
        s = s.wrapping_mul(6364136223846793005).wrapping_add(1442695040888963407);
        cells.push(cell(x, (s >> 40) as u32));
    }
    let t = Quadtree::build(&cells, 2);
    for (lo, hi) in [(0, 0), (0, 1), (1, 3), (2, 2), (3, 40), (5, 4)] {
        assert_eq!(t.nodes_to_draw(lo, hi), drawn_by_walk(&t, lo, hi));
    }
}

#[test]
fn nodes_to_draw_at_depth_zero_is_the_root() {
    let cells = vec![cell(1, 1), cell(9, 9), cell(u32::MAX, 3)];
    let t = Quadtree::build(&cells, 1);
    assert_eq!(t.nodes_to_draw(0, 0), vec![(ROOT, 0)]);
    assert_eq!(t.depth_range_to_draw((2, 5)), (2, 5));
}
