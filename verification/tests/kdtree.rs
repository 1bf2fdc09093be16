use rpt::kdtree::{BoundingBox, KdNode, KdTree, Vec3i};

fn boxed(x0: i64, y0: i64, z0: i64, x1: i64, y1: i64, z1: i64) -> BoundingBox {
    BoundingBox {
        p_min: Vec3i { x: x0, y: y0, z: z0 },
        p_max: Vec3i { x: x1, y: y1, z: z1 },
    }
}

fn collect_leaf_indices(node: &KdNode, out: &mut Vec<usize>) {
    match node {
        KdNode::Leaf(idxs) => out.extend(idxs.iter().copied()),
        KdNode::SplitX(_, l, r) | KdNode::SplitY(_, l, r) | KdNode::SplitZ(_, l, r) => {
            collect_leaf_indices(l, out);
            collect_leaf_indices(r, out);
        }
    }
}

#[test]
fn merge_contains_both_boxes() {
    let b1 = boxed(-3, 0, 2, 5, 1, 4);
    let b2 = boxed(-1, -7, 3, 2, 9, 10);
    let m = b1.merge(&b2);
    assert_eq!(m.p_min.x, -3);
    assert_eq!(m.p_min.y, -7);
    assert_eq!(m.p_min.z, 2);
    assert_eq!(m.p_max.x, 5);
    assert_eq!(m.p_max.y, 9);
    assert_eq!(m.p_max.z, 10);
    // The union contains both inputs, corner by corner.
    assert!(m.p_min.x <= b1.p_min.x && b1.p_max.x <= m.p_max.x);
    assert!(m.p_min.y <= b1.p_min.y && b1.p_max.y <= m.p_max.y);
    assert!(m.p_min.z <= b1.p_min.z && b1.p_max.z <= m.p_max.z);
    assert!(m.p_min.x <= b2.p_min.x && b2.p_max.x <= m.p_max.x);
    assert!(m.p_min.y <= b2.p_min.y && b2.p_max.y <= m.p_max.y);
    assert!(m.p_min.z <= b2.p_min.z && b2.p_max.z <= m.p_max.z);
}

#[test]
fn merge_with_the_empty_default_is_identity() {
    let b = boxed(-2, -2, -2, 3, 3, 3);
    let empty = BoundingBox::default();
    let m = empty.merge(&b);
    assert_eq!(m.p_min.x, b.p_min.x);
    assert_eq!(m.p_max.z, b.p_max.z);
}

#[test]
fn split_places_the_plane_in_both_halves() {
    let b = boxed(0, 0, 0, 10, 10, 10);
    let (lo, hi) = b.split(0, 4);
    assert_eq!(lo.p_min.x, 0);
    assert_eq!(lo.p_max.x, 4);
    assert_eq!(hi.p_min.x, 4);
    assert_eq!(hi.p_max.x, 10);
    assert_eq!(lo.p_max.y, 10);
    assert_eq!(hi.p_min.y, 0);
}

#[test]
fn small_collections_build_a_single_leaf() {
    let boxes: Vec<BoundingBox> = (0..10).map(|i| boxed(i, 0, 0, i + 1, 1, 1)).collect();
    let tree = KdTree::new(boxes);
    match *tree.root {
        KdNode::Leaf(ref idxs) => {
            let mut sorted = idxs.clone();
            sorted.sort();
            assert_eq!(sorted, (0..10).collect::<Vec<usize>>());
        }
        _ => panic!("ten boxes must stay in one leaf"),
    }
}

#[test]
fn identical_boxes_are_not_worth_splitting() {
    // Every box touches any splitting plane through them, so the score
    // can never beat the threshold and the node stays a leaf.
    let boxes: Vec<BoundingBox> = (0..20).map(|_| boxed(0, 0, 0, 2, 2, 2)).collect();
    let tree = KdTree::new(boxes);
    match *tree.root {
        KdNode::Leaf(ref idxs) => assert_eq!(idxs.len(), 20),
        _ => panic!("identical boxes must stay in one leaf"),
    }
}

#[test]
fn spread_boxes_split_and_no_index_is_lost() {
    let count: usize = 64;
    let boxes: Vec<BoundingBox> = (0..count)
        .map(|i| {
            let x = (i as i64) * 10;
            boxed(x, -1, -1, x + 3, 1, 1)
        })
        .collect();
    let tree = KdTree::new(boxes);
    assert!(!matches!(*tree.root, KdNode::Leaf(_)), "64 spread boxes must split");
    let mut seen = Vec::new();
    collect_leaf_indices(&tree.root, &mut seen);
    seen.sort();
    seen.dedup();
    assert_eq!(seen, (0..count).collect::<Vec<usize>>());
    // The stored bounds are the union of all the boxes.
    assert_eq!(tree.bounds.p_min.x, 0);
    assert_eq!(tree.bounds.p_max.x, (count as i64 - 1) * 10 + 3);
    assert_eq!(tree.bounds.p_min.y, -1);
    assert_eq!(tree.bounds.p_max.y, 1);
}

#[test]
fn boxes_straddling_the_median_go_to_both_sides() {
    // One long box overlaps everything, so it must appear in every leaf
    // subtree that its extent touches; it may be duplicated, never lost.
    let mut boxes: Vec<BoundingBox> = (0..32)
        .map(|i| {
            let x = (i as i64) * 8;
            boxed(x, 0, 0, x + 2, 4, 4)
        })
        .collect();
    boxes.push(boxed(0, 0, 0, 31 * 8 + 2, 4, 4));
    let tree = KdTree::new(boxes);
    let mut seen = Vec::new();
    collect_leaf_indices(&tree.root, &mut seen);
    assert!(seen.iter().filter(|&&i| i == 32).count() >= 1);
    seen.sort();
    seen.dedup();
    assert_eq!(seen.len(), 33);
}

fn check_splits_within(node: &KdNode, lo: &Vec3i, hi: &Vec3i) {
    match node {
        KdNode::Leaf(_) => {}
        KdNode::SplitX(v, l, r) => {
            assert!(lo.x <= *v && *v <= hi.x);
            check_splits_within(l, lo, hi);
            check_splits_within(r, lo, hi);
        }
        KdNode::SplitY(v, l, r) => {
            assert!(lo.y <= *v && *v <= hi.y);
            check_splits_within(l, lo, hi);
            check_splits_within(r, lo, hi);
        }
        KdNode::SplitZ(v, l, r) => {
            assert!(lo.z <= *v && *v <= hi.z);
            check_splits_within(l, lo, hi);
            check_splits_within(r, lo, hi);
        }
    }
}

#[test]
fn split_planes_stay_inside_the_bounds() {
    let boxes: Vec<BoundingBox> = (0..100)
        .map(|i| {
            let x = (i as i64 % 10) * 7;
            let y = (i as i64 / 10) * 5;
            boxed(x, y, -2, x + 3, y + 4, 2)
        })
        .collect();
    let tree = KdTree::new(boxes);
    check_splits_within(&tree.root, &tree.bounds.p_min, &tree.bounds.p_max);
}

#[test]
fn split_plane_is_the_coordinate_median() {
    // Boxes are handed over in decreasing order of position, so the split
    // can only land on the true median if the coordinates really get
    // sorted during construction.
    let boxes: Vec<BoundingBox> = (0..17)
        .rev()
        .map(|i| boxed(10 * i, 0, 0, 10 * i + 1, 1, 1))
        .collect();
    let tree = KdTree::new(boxes);
    match *tree.root {
        KdNode::SplitX(v, _, _) => assert_eq!(v, 80),
        _ => panic!("seventeen spread boxes must split on x"),
    }
}
