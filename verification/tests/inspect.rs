use segsum::{depth_counts, Change, NodeInfo, SegSum, N};

fn info(depth: usize) -> NodeInfo<i64> {
    NodeInfo { depth, l: 0, r: 1, s: 0, mark: None }
}

fn shape(nodes: &[NodeInfo<i64>]) -> Vec<(usize, i64, i64, i64)> {
    nodes.iter().map(|n| (n.depth, n.l, n.r, n.s)).collect()
}

#[test]
fn fresh_tree_is_one_node() {
    let seg = SegSum::<i64>::new(0, 8);
    let nodes = seg.nodes();
    assert_eq!(shape(&nodes), vec![(0, 0, 8, 0)]);
    assert!(nodes[0].mark.is_none());
    assert_eq!(depth_counts(&nodes), vec![1]);
}

#[test]
fn nodes_after_a_partial_add() {
    let mut seg = SegSum::<i64>::new(0, 8);
    seg.add(2, 5, &3);
    let nodes = seg.nodes();
    assert_eq!(
        shape(&nodes),
        vec![
            (2, 0, 2, 0),
            (1, 0, 4, 6),
            (2, 2, 4, 0),
            (0, 0, 8, 9),
            (3, 4, 5, 0),
            (2, 4, 6, 3),
            (3, 5, 6, 0),
            (1, 4, 8, 3),
            (2, 6, 8, 0),
        ]
    );
    for (i, n) in nodes.iter().enumerate() {
        if i == 2 || i == 4 {
            assert!(matches!(n.mark, Some(Change::Rel(3))));
        } else {
            assert!(n.mark.is_none());
        }
    }
    assert_eq!(depth_counts(&nodes), vec![1, 2, 4, 2]);
}

#[test]
fn assign_creates_only_the_left_child_it_needs() {
    let mut seg = SegSum::<i64>::new(0, 8);
    seg.update(0, 4, &7);
    let nodes = seg.nodes();
    assert_eq!(shape(&nodes), vec![(1, 0, 4, 7), (0, 0, 8, 28)]);
    assert!(matches!(nodes[0].mark, Some(Change::Abs(7))));
    assert!(nodes[1].mark.is_none());
}

#[test]
fn full_assign_keeps_the_value_unscaled_under_the_mark() {
    let mut seg = SegSum::<i64>::new(0, 8);
    seg.update(0, 8, &5);
    let nodes = seg.nodes();
    assert_eq!(shape(&nodes), vec![(0, 0, 8, 5)]);
    assert!(matches!(nodes[0].mark, Some(Change::Abs(5))));
    seg.add(0, 8, &2);
    let nodes = seg.nodes();
    assert_eq!(
        shape(&nodes),
        vec![(1, 0, 4, 5), (0, 0, 8, 40), (1, 4, 8, 5)]
    );
    assert!(matches!(nodes[0].mark, Some(Change::Abs(5))));
    assert!(matches!(nodes[1].mark, Some(Change::Rel(2))));
    assert!(matches!(nodes[2].mark, Some(Change::Abs(5))));
    assert_eq!(seg.query_range(0, 8), 56);
}

#[test]
fn query_hands_marks_down() {
    let mut seg = SegSum::<i64>::new(0, 4);
    seg.add(0, 4, &1);
    assert_eq!(seg.nodes().len(), 1);
    assert_eq!(seg.query_range(1, 2), 1);
    let nodes = seg.nodes();
    assert_eq!(
        shape(&nodes),
        vec![(2, 0, 1, 0), (1, 0, 2, 2), (2, 1, 2, 0), (0, 0, 4, 4), (1, 2, 4, 0)]
    );
    assert!(matches!(nodes[0].mark, Some(Change::Rel(1))));
    assert!(nodes[1].mark.is_none());
    assert!(matches!(nodes[2].mark, Some(Change::Rel(1))));
    assert!(nodes[3].mark.is_none());
    assert!(matches!(nodes[4].mark, Some(Change::Rel(1))));
}

#[test]
fn single_positions_never_get_children() {
    let mut seg = SegSum::<i64>::new(0, 2);
    for _ in 0..3 {
        seg.update(0, 1, &4);
        seg.add(1, 2, &1);
        seg.add(0, 2, &1);
        seg.query_range(0, 1);
        seg.query_range(1, 2);
    }
    let nodes = seg.nodes();
    assert_eq!(nodes.len(), 3);
    assert_eq!(depth_counts(&nodes), vec![1, 2]);
    assert_eq!(seg.query_range(0, 2), 5 + 6);
}

#[test]
fn depth_of_the_widest_tree_stays_below_64() {
    let lo = -(1i64 << 62);
    let hi = i64::MAX + lo;
    let mut seg = SegSum::<i64>::new(lo, hi);
    seg.add(0, 1, &1);
    seg.add(hi - 1, hi, &1);
    seg.add(lo, lo + 1, &1);
    let nodes = seg.nodes();
    let deepest = nodes.iter().map(|n| n.depth).max();
    assert_eq!(deepest, Some(63));
    let counts = depth_counts(&nodes);
    assert_eq!(counts.len(), 64);
    assert_eq!(counts.iter().sum::<usize>(), nodes.len());
    assert_eq!(seg.query_range(lo, hi), 3);
}

#[test]
fn node_nodes_start_at_depth_zero() {
    let mut n = N::<i64>::new(-4, 4);
    n.update(-4, 0, &1);
    n.add(-1, 1, &2);
    let nodes = n.nodes();
    assert_eq!(nodes.iter().filter(|x| x.depth == 0).count(), 1);
    assert_eq!(depth_counts(&nodes).iter().sum::<usize>(), nodes.len());
    assert_eq!(n.range_sum(), 4 + 4);
}

#[test]
fn negative_range_is_cut_at_the_floor() {
    let mut n = N::<i64>::new(-3, 0);
    n.update(-3, -2, &1);
    let nodes = n.nodes();
    assert_eq!(shape(&nodes), vec![(1, -3, -2, 1), (0, -3, 0, 1)]);
    assert!(matches!(nodes[0].mark, Some(Change::Abs(1))));
    n.add(-2, 0, &4);
    let nodes = n.nodes();
    assert_eq!(shape(&nodes), vec![(1, -3, -2, 1), (0, -3, 0, 9), (1, -2, 0, 0)]);
    assert!(matches!(nodes[2].mark, Some(Change::Rel(4))));
}

#[test]
fn depth_counts_of_nothing_is_empty() {
    let none: Vec<NodeInfo<i64>> = Vec::new();
    assert_eq!(depth_counts(&none), Vec::<usize>::new());
}

#[test]
fn depth_counts_leaves_gaps_at_zero() {
    let infos = vec![info(3), info(0), info(3), info(1), info(3)];
    assert_eq!(depth_counts(&infos), vec![1, 1, 0, 3]);
}

#[test]
fn clone_is_independent_and_equal() {
    let mut seg = SegSum::<i64>::new(0, 8);
    seg.add(2, 5, &3);
    seg.update(4, 7, &9);
    let mut copy = seg.clone();
    assert_eq!(shape(&seg.nodes()), shape(&copy.nodes()));
    for i in 0..8 {
        for j in i..9 {
            assert_eq!(seg.query_range(i, j), copy.query_range(i, j));
        }
    }
    copy.update(0, 8, &1);
    assert_eq!(copy.query_range(0, 8), 8);
    assert_eq!(seg.query_range(0, 8), 2 * 3 + 3 * 9);
}

#[test]
fn node_clone_copies_marks() {
    let mut n = N::<i64>::new(0, 4);
    n.update(0, 4, &2);
    let mut c = n.clone();
    n.add(0, 4, &1);
    assert_eq!(c.range_sum(), 8);
    assert_eq!(n.range_sum(), 12);
    assert_eq!(c.query_sum(1, 3), 4);
    let mark = Change::Abs(5i64).clone();
    assert!(matches!(mark, Change::Abs(5)));
}
