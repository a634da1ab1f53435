use boids::geom::{Entry, Rect};
use boids::quadtree::{IndexError, Node, SpatialIndex, CAP};

fn region(w: i64, h: i64) -> Rect {
    Rect { min_x: 0, min_y: 0, max_x: w, max_y: h }
}

/// A small deterministic pseudo-random sequence.
fn next(state: &mut u64) -> u64 {
    *state = state.wrapping_mul(6364136223846793005).wrapping_add(1442695040888963407);
    *state >> 33
}

fn random_entries(n: usize, w: i64, h: i64, seed: u64) -> Vec<Entry> {
    let mut s = seed;
    (0..n)
        .map(|id| Entry { x: (next(&mut s) % (w as u64 + 1)) as i64, y: (next(&mut s) % (h as u64 + 1)) as i64, id })
        .collect()
}

fn sorted_ids(v: &[Entry]) -> Vec<usize> {
    let mut ids: Vec<usize> = v.iter().map(|e| e.id).collect();
    ids.sort();
    ids
}

fn largest_splittable_leaf(node: &Node, r: Rect) -> usize {
    match node {
        Node::Leaf(v) => {
            if r.is_single_point() {
                0
            } else {
                v.len()
            }
        }
        Node::Inner(a, b, c, d) => [a, b, c, d]
            .iter()
            .enumerate()
            .map(|(k, n)| largest_splittable_leaf(n, r.quadrant_exec(k as u8)))
            .max()
            .unwrap(),
    }
}

#[test]
fn full_region_query_returns_every_entry() {
    let r = region(1000, 800);
    let entries = random_entries(200, 1000, 800, 7);
    let t = SpatialIndex::new(r, &entries).unwrap();
    assert_eq!(t.len(), 200);
    let all = t.query_range(&r);
    assert_eq!(sorted_ids(&all), (0..200).collect::<Vec<usize>>());
    assert_eq!(sorted_ids(&t.iterate()), (0..200).collect::<Vec<usize>>());
}

#[test]
fn query_matches_brute_force_filter() {
    let r = region(5000, 5000);
    let mut s: u64 = 99;
    for round in 0..20u64 {
        let entries = random_entries(150, 5000, 5000, round + 1);
        let t = SpatialIndex::new(r, &entries).unwrap();
        for _ in 0..10 {
            let x0 = (next(&mut s) % 5000) as i64 - 500;
            let y0 = (next(&mut s) % 5000) as i64 - 500;
            let w = Rect { min_x: x0, min_y: y0, max_x: x0 + (next(&mut s) % 2000) as i64, max_y: y0 + (next(&mut s) % 2000) as i64 };
            let expected: Vec<Entry> = entries.iter().copied().filter(|e| w.contains_point(e.x, e.y)).collect();
            assert_eq!(sorted_ids(&t.query_range(&w)), sorted_ids(&expected));
        }
    }
}

#[test]
fn no_splittable_leaf_exceeds_capacity() {
    let r = region(4096, 4096);
    let entries = random_entries(1000, 4096, 4096, 3);
    let t = SpatialIndex::new(r, &entries).unwrap();
    assert!(largest_splittable_leaf(&t.root, r) <= CAP);
    assert!(matches!(t.root, Node::Inner(..)));
}

#[test]
fn coincident_entries_stay_in_one_point_leaf() {
    let r = region(100, 100);
    let entries: Vec<Entry> = (0..25).map(|id| Entry { x: 40, y: 60, id }).collect();
    let t = SpatialIndex::new(r, &entries).unwrap();
    assert_eq!(t.len(), 25);
    assert_eq!(sorted_ids(&t.query_range(&Rect { min_x: 40, min_y: 60, max_x: 40, max_y: 60 })), (0..25).collect::<Vec<usize>>());
    assert!(largest_splittable_leaf(&t.root, r) <= CAP);
}

#[test]
fn insert_outside_region_fails() {
    let mut t = SpatialIndex::empty(region(10, 10));
    assert_eq!(t.insert(Entry { x: 5, y: 5, id: 0 }), Ok(()));
    assert_eq!(t.insert(Entry { x: 11, y: 5, id: 1 }), Err(IndexError::OutOfRegion));
    assert_eq!(t.insert(Entry { x: 5, y: -1, id: 2 }), Err(IndexError::OutOfRegion));
    assert_eq!(t.len(), 1);
    assert!(SpatialIndex::new(region(10, 10), &vec![Entry { x: 1, y: 1, id: 0 }, Entry { x: 20, y: 1, id: 1 }]).is_err());
}

#[test]
fn query_on_empty_window_and_empty_index() {
    let t = SpatialIndex::empty(region(10, 10));
    assert_eq!(t.len(), 0);
    assert!(t.query_range(&region(10, 10)).is_empty());
    let entries = random_entries(30, 10, 10, 5);
    let t = SpatialIndex::new(region(10, 10), &entries).unwrap();
    assert!(t.query_range(&Rect { min_x: 20, min_y: 20, max_x: 30, max_y: 30 }).is_empty());
}

#[test]
fn change_bounds_keeps_every_entry_and_clamps() {
    let entries = random_entries(120, 1000, 1000, 11);
    let mut t = SpatialIndex::new(region(1000, 1000), &entries).unwrap();
    t.change_bounds(region(300, 200));
    assert_eq!(t.len(), 120);
    let all = t.query_range(&region(300, 200));
    assert_eq!(sorted_ids(&all), (0..120).collect::<Vec<usize>>());
    for e in &all {
        let orig = entries[e.id];
        assert_eq!(e.x, orig.x.min(300));
        assert_eq!(e.y, orig.y.min(200));
    }
}
