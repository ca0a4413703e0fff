use kolmox::metric_tree::bk_tree::BkTree;
use kolmox::metric_tree::vp_tree::VpTree;

const POINTS: [isize; 10] = [3, 17, 42, 8, 99, 56, 23, 71, 5, 64];

fn dist(a: &usize, b: &usize) -> isize {
    (POINTS[*a] - POINTS[*b]).abs()
}

fn brute(query: usize, radius: isize) -> bool {
    (0..POINTS.len()).any(|i| dist(&i, &query) <= radius)
}

#[test]
fn vp_tree_agrees_with_brute_force_on_a_metric() {
    let tree = VpTree::new((0..POINTS.len()).collect(), |a: &usize, b: &usize| dist(a, b));
    for q in 0..POINTS.len() {
        for r in [-1isize, 0, 1, 3, 10, 50] {
            let hit = tree.find_first_within(q, r);
            assert_eq!(hit.is_some(), brute(q, r), "q={q} r={r}");
            if let Some((item, d)) = hit {
                assert_eq!(d, dist(&q, &item));
                assert!(d <= r);
            }
        }
    }
}

#[test]
fn vp_tree_empty_finds_nothing() {
    let tree = VpTree::new(Vec::new(), |a: &usize, b: &usize| dist(a, b));
    assert_eq!(tree.find_first_within(0, 1000), None);
}

#[test]
fn vp_tree_returns_query_itself_at_radius_zero() {
    let tree = VpTree::new((0..POINTS.len()).collect(), |a: &usize, b: &usize| dist(a, b));
    assert_eq!(tree.find_first_within(4, 0), Some((4, 0)));
}

#[test]
fn bk_tree_agrees_with_brute_force_on_a_metric() {
    let mut tree = BkTree::new(|a: &usize, b: &usize| dist(a, b));
    tree.insert_all((0..POINTS.len()).collect());
    for q in 0..POINTS.len() {
        for r in [-1isize, 0, 2, 9, 30] {
            let hit = tree.find_first_within(q, r);
            assert_eq!(hit.is_some(), brute(q, r), "q={q} r={r}");
            if let Some((item, d)) = hit {
                assert_eq!(d, dist(&q, &item));
                assert!(d <= r);
            }
        }
    }
}

#[test]
fn bk_tree_skips_zero_distance_duplicates() {
    let mut tree = BkTree::new(|a: &usize, b: &usize| (*a as isize / 10 - *b as isize / 10).abs());
    tree.insert(11);
    tree.insert(12);
    tree.insert(25);
    assert_eq!(tree.find_first_within(12, 0), Some((11, 0)));
    assert_eq!(tree.find_first_within(20, 0), Some((25, 0)));
}

#[test]
fn bk_tree_empty_finds_nothing() {
    let tree = BkTree::new(|a: &usize, b: &usize| dist(a, b));
    assert_eq!(tree.find_first_within(0, 1000), None);
}

#[test]
fn bk_tree_finds_held_items_after_bulk_insertion() {
    let d = |a: &usize, b: &usize| (*a as isize - *b as isize).abs();
    let mut tree = BkTree::new(d);
    tree.insert_all(vec![1usize, 4, 5]);
    assert_eq!(tree.find_first_within(5, 0), Some((5, 0)));
    assert_eq!(tree.find_first_within(2, 1), Some((1, 1)));
    assert_eq!(tree.find_first_within(2, 0), None);
    assert_eq!(BkTree::new(d).find_first_within(0, 9), None);
}
