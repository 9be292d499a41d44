use std::cmp::Ordering;

use ddbug::merge::{MergeIterator, MergeResult};

fn shape(v: &[MergeResult<(u64, char), (u64, char)>]) -> String {
    v.iter()
        .map(|m| match m {
            MergeResult::Left(a) => format!("<{}", a.1),
            MergeResult::Right(b) => format!(">{}", b.1),
            MergeResult::Both(a, b) => format!("={}{}", a.1, b.1),
        })
        .collect::<Vec<_>>()
        .join(" ")
}

#[test]
fn merge_pairs_equal_keys() {
    let left = vec![(1, 'a'), (3, 'b'), (5, 'c')];
    let right = vec![(2, 'x'), (3, 'y'), (6, 'z')];
    let merged = MergeIterator::new(left, right).collect();
    assert_eq!(shape(&merged), "<a >x =by <c >z");
}

#[test]
fn merge_one_side_empty() {
    let merged = MergeIterator::new(vec![(1, 'a'), (2, 'b')], Vec::new()).collect();
    assert_eq!(shape(&merged), "<a <b");
    let merged = MergeIterator::new(Vec::new(), vec![(1, 'x')]).collect();
    assert_eq!(shape(&merged), ">x");
    let merged = MergeIterator::<char, char>::new(Vec::new(), Vec::new()).collect();
    assert_eq!(shape(&merged), "");
}

#[test]
fn merge_next_steps() {
    let mut it = MergeIterator::new(vec![(4, 'a')], vec![(4, 'b'), (7, 'c')]);
    assert!(matches!(it.next(), Some(MergeResult::Both((4, 'a'), (4, 'b')))));
    assert!(matches!(it.next(), Some(MergeResult::Right((7, 'c')))));
    assert!(it.next().is_none());
    assert!(it.next().is_none());
}

#[test]
fn merge_result_cmp_uses_right_item() {
    let by_value = |x: &u32, ax: u32, y: &u32, ay: u32| (x + ax).cmp(&(y + ay));
    let both: MergeResult<u32, u32> = MergeResult::Both(100, 1);
    let left: MergeResult<u32, u32> = MergeResult::Left(2);
    let right: MergeResult<u32, u32> = MergeResult::Right(1);
    // A pair is ordered by its right item; each item gets the argument of its side.
    assert_eq!(MergeResult::cmp(&both, &left, 0, 0, by_value), Ordering::Less);
    assert_eq!(MergeResult::cmp(&both, &right, 0, 0, by_value), Ordering::Equal);
    assert_eq!(MergeResult::cmp(&left, &right, 10, 0, by_value), Ordering::Greater);
    assert_eq!(MergeResult::cmp(&right, &left, 10, 0, by_value), Ordering::Less);
    assert_eq!(MergeResult::cmp(&right, &left, 0, 10, by_value), Ordering::Greater);
}

#[test]
fn merge_next_after_end_stays_done() {
    let mut it = MergeIterator::new(vec![(1u64, 'a')], vec![(1u64, 'b')]);
    assert!(matches!(it.next(), Some(MergeResult::Both((1, 'a'), (1, 'b')))));
    assert!(it.next().is_none());
    assert!(it.next().is_none());
    assert_eq!(shape(&it.collect()), "");
}

#[test]
fn merge_pairs_only_items_with_equal_keys() {
    let left = vec![(1, 'a'), (4, 'b'), (7, 'c')];
    let right = vec![(4, 'x'), (7, 'y'), (9, 'z')];
    let merged = MergeIterator::new(left, right).collect();
    assert_eq!(shape(&merged), "<a =bx =cy >z");
}
