use mc_map_tools::bounds::{Bounds, Quadrant};
use mc_map_tools::quadtree::{Items, QuadTree, QueryItems};

fn rect(x: i64, y: i64, width: i64, height: i64) -> Bounds {
    Bounds { x, y, width, height }
}

fn new_test_quadtree<'a>() -> QuadTree<'a, Bounds> {
    QuadTree::new(rect(0, 0, 16, 16))
}

fn collect_items<'a>(mut it: Items<'a, Bounds>) -> Vec<&'a Bounds> {
    let mut out = Vec::new();
    while let Some(e) = it.next() {
        out.push(e);
    }
    out
}

fn collect_query<'a>(mut it: QueryItems<'a, Bounds>) -> Vec<&'a Bounds> {
    let mut out = Vec::new();
    while let Some(e) = it.next() {
        out.push(e);
    }
    out
}

#[test]
fn insert() {
    let mut qt = new_test_quadtree();
    let r1 = &rect(0, 0, 1, 1);
    let r2 = &rect(14, 14, 1, 1);
    qt.insert(r1);
    qt.insert(r2);
    let rects: Vec<&Bounds> = collect_items(qt.iter());
    assert!(rects == vec!(r1, r2));
    assert!(2 == qt.len());
}

#[test]
fn query() {
    let mut qt = new_test_quadtree();
    let r1 = &rect(0, 0, 1, 1);
    let r2 = &rect(4, 4, 8, 8);
    let r3 = &rect(9, 9, 1, 1);
    let r4 = &rect(14, 14, 1, 1);
    qt.insert(r1);
    qt.insert(r2);
    qt.insert(r3);
    let results: Vec<&Bounds> = collect_query(qt.query(r4));
    assert!(results.contains(&r2) && results.contains(&r3));
}

#[test]
fn clear() {
    let mut qt = new_test_quadtree();
    let r1 = &rect(0, 0, 1, 1);
    let r2 = &rect(4, 4, 8, 8);
    qt.insert(r1);
    qt.insert(r2);
    assert!(2 == qt.len());
    qt.clear();
    assert!(0 == qt.len());
}

#[test]
fn clear_leaves_nothing_to_iterate() {
    let rs: Vec<Bounds> = (0..9).map(|i| rect(i, i, 1, 1)).collect();
    let mut qt = new_test_quadtree();
    for r in rs.iter() {
        qt.insert(r);
    }
    assert_eq!(qt.len(), 9);
    assert_eq!(collect_items(qt.iter()).len(), 9);
    qt.clear();
    assert_eq!(qt.len(), 0);
    assert!(collect_items(qt.iter()).is_empty());
    qt.insert(&rs[0]);
    assert_eq!(qt.len(), 1);
}

#[test]
fn order_of_insertion_kept_without_split() {
    let rs = vec![rect(9, 9, 1, 1), rect(0, 0, 1, 1), rect(4, 4, 8, 8), rect(14, 1, 1, 1)];
    let mut qt = new_test_quadtree();
    for r in rs.iter() {
        qt.insert(r);
    }
    let got: Vec<Bounds> = collect_items(qt.iter()).into_iter().copied().collect();
    assert_eq!(got, rs);
}

#[test]
fn quadrants_of_sixteen() {
    let b = rect(0, 0, 16, 16);
    assert_eq!(b.quadrant_bounds(Quadrant::TopLeft), rect(0, 0, 8, 8));
    assert_eq!(b.quadrant_bounds(Quadrant::TopRight), rect(8, 0, 8, 8));
    assert_eq!(b.quadrant_bounds(Quadrant::BottomRight), rect(8, 8, 8, 8));
    assert_eq!(b.quadrant_bounds(Quadrant::BottomLeft), rect(0, 8, 8, 8));
}

#[test]
fn odd_extent_halves_cover_parent() {
    let b = rect(1, 2, 5, 7);
    assert_eq!(b.quadrant_bounds(Quadrant::TopLeft), rect(1, 2, 2, 3));
    assert_eq!(b.quadrant_bounds(Quadrant::BottomRight), rect(3, 5, 3, 4));
}

#[test]
fn quadrant_routing() {
    let b = rect(0, 0, 16, 16);
    assert_eq!(b.quadrant(&rect(0, 0, 1, 1)), Some(Quadrant::TopLeft));
    assert_eq!(b.quadrant(&rect(9, 1, 1, 1)), Some(Quadrant::TopRight));
    assert_eq!(b.quadrant(&rect(14, 14, 1, 1)), Some(Quadrant::BottomRight));
    assert_eq!(b.quadrant(&rect(1, 9, 1, 1)), Some(Quadrant::BottomLeft));
    // a far edge on the dividing line belongs to no quadrant
    assert_eq!(b.quadrant(&rect(4, 4, 4, 1)), None);
    assert_eq!(b.quadrant(&rect(4, 4, 8, 8)), None);
    assert_eq!(b.quadrant(&rect(15, 15, 1, 1)), None);
}

#[test]
fn split_moves_elements_down() {
    let rs = vec![
        rect(0, 0, 1, 1),
        rect(9, 1, 1, 1),
        rect(4, 4, 8, 8),
        rect(14, 14, 1, 1),
        rect(1, 9, 1, 1),
    ];
    let mut qt = new_test_quadtree();
    for r in rs.iter() {
        qt.insert(r);
    }
    assert_eq!(qt.len(), 5);
    // the straddling element stays at the root; the others follow in
    // quadrant order
    let got: Vec<Bounds> = collect_items(qt.iter()).into_iter().copied().collect();
    assert_eq!(got, vec![rs[2], rs[0], rs[1], rs[3], rs[4]]);
}

#[test]
fn query_follows_one_quadrant() {
    let rs = vec![
        rect(0, 0, 1, 1),
        rect(9, 1, 1, 1),
        rect(4, 4, 8, 8),
        rect(14, 14, 1, 1),
        rect(1, 9, 1, 1),
    ];
    let mut qt = new_test_quadtree();
    for r in rs.iter() {
        qt.insert(r);
    }
    let got: Vec<Bounds> = collect_query(qt.query(&rect(12, 12, 1, 1))).into_iter().copied().collect();
    assert_eq!(got, vec![rs[2], rs[3]]);
}

#[test]
fn straddling_query_visits_quadrants_from_a_stack() {
    let rs = vec![
        rect(0, 0, 1, 1),
        rect(9, 1, 1, 1),
        rect(4, 4, 8, 8),
        rect(14, 14, 1, 1),
        rect(1, 9, 1, 1),
    ];
    let mut qt = new_test_quadtree();
    for r in rs.iter() {
        qt.insert(r);
    }
    let got: Vec<Bounds> = collect_query(qt.query(&rect(6, 6, 4, 4))).into_iter().copied().collect();
    assert_eq!(got, vec![rs[2], rs[0], rs[4], rs[3], rs[1]]);
}

#[test]
fn straddling_query_outside_stops() {
    let rs = vec![
        rect(0, 0, 1, 1),
        rect(9, 1, 1, 1),
        rect(4, 4, 8, 8),
        rect(14, 14, 1, 1),
        rect(1, 9, 1, 1),
    ];
    let mut qt = new_test_quadtree();
    for r in rs.iter() {
        qt.insert(r);
    }
    let got: Vec<Bounds> = collect_query(qt.query(&rect(-4, -4, 30, 30))).into_iter().copied().collect();
    assert_eq!(got, vec![rs[2]]);
}

#[test]
fn query_twice_same_result() {
    let rs: Vec<Bounds> = (0..12).map(|i| rect(i, 15 - i, 1, 1)).collect();
    let mut qt = new_test_quadtree();
    for r in rs.iter() {
        qt.insert(r);
    }
    let probe = rect(3, 11, 1, 1);
    let a = collect_query(qt.query(&probe));
    let b = collect_query(qt.query(&probe));
    assert!(!a.is_empty());
    assert_eq!(a, b);
}

#[test]
fn many_inserts_counted_with_depth_limit() {
    let same = rect(1, 1, 1, 1);
    let mut qt = new_test_quadtree();
    for _ in 0..50 {
        qt.insert(&same);
    }
    assert_eq!(qt.len(), 50);
    assert_eq!(qt.to_vec().len(), 50);
}

#[test]
fn query_of_unsplit_leaf_yields_all() {
    let mut qt = new_test_quadtree();
    let r1 = &rect(0, 0, 1, 1);
    let r2 = &rect(4, 4, 8, 8);
    let r3 = &rect(9, 9, 1, 1);
    qt.insert(r1);
    qt.insert(r2);
    qt.insert(r3);
    // three elements do not split the root, so a query sees all of them
    let results: Vec<&Bounds> = collect_query(qt.query(&rect(14, 14, 1, 1)));
    assert_eq!(results, vec![r1, r2, r3]);
}

#[test]
fn fifth_insert_splits_root() {
    let s1 = &rect(0, 0, 1, 1);
    let s2 = &rect(14, 14, 1, 1);
    let s3 = &rect(4, 4, 8, 8);
    let s4 = &rect(9, 9, 1, 1);
    let s5 = &rect(1, 1, 1, 1);
    let mut qt = new_test_quadtree();
    for s in [s1, s2, s3, s4] {
        qt.insert(s);
    }
    assert_eq!(collect_items(qt.iter()), vec![s1, s2, s3, s4]);
    qt.insert(s5);
    assert_eq!(qt.len(), 5);
    assert_eq!(collect_items(qt.iter()), vec![s3, s1, s5, s2, s4]);
    // the inserted element is found by a query for it
    assert!(collect_query(qt.query(s4)).contains(&s4));
    assert_eq!(collect_query(qt.query(s4)), vec![s3, s2, s4]);
}
