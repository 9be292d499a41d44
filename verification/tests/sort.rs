use ddbug::merge::MergeResult;
use ddbug::print::state::{DiffState, Direction, PrintState};

type Entry = MergeResult<(u64, usize), (u64, usize)>;

fn describe(v: &[Entry]) -> Vec<String> {
    v.iter()
        .map(|e| match e {
            MergeResult::Left(a) => format!("L{}", a.1),
            MergeResult::Right(b) => format!("R{}", b.1),
            MergeResult::Both(a, b) => format!("B{}{}", a.1, b.1),
        })
        .collect()
}

#[test]
fn print_sort_list_is_stable() {
    let list = vec![(3, 0), (1, 1), (3, 2), (2, 3)];
    assert_eq!(
        PrintState::sort_list(&list),
        vec![(1, 1), (2, 3), (3, 0), (3, 2)]
    );
}

fn entries() -> Vec<Entry> {
    vec![
        MergeResult::Left((5, 0)),
        // A pair sorts by its right item.
        MergeResult::Both((1, 1), (4, 0)),
        MergeResult::Right((2, 1)),
        MergeResult::Left((2, 2)),
    ]
}

#[test]
fn diff_sort_list_orders_by_right_item() {
    let sorted = DiffState::sort_list(&entries(), false, false);
    assert_eq!(describe(&sorted), vec!["R1", "L2", "B10", "L0"]);
}

#[test]
fn diff_sort_list_ignores_deleted_or_added() {
    let sorted = DiffState::sort_list(&entries(), true, false);
    assert_eq!(describe(&sorted), vec!["R1", "B10"]);
    let sorted = DiffState::sort_list(&entries(), false, true);
    assert_eq!(describe(&sorted), vec!["L2", "B10", "L0"]);
    let sorted = DiffState::sort_list(&entries(), true, true);
    assert_eq!(describe(&sorted), vec!["B10"]);
}

fn describe_positions(v: &[MergeResult<usize, usize>]) -> Vec<String> {
    v.iter()
        .map(|e| match e {
            MergeResult::Left(a) => format!("L{}", a),
            MergeResult::Right(b) => format!("R{}", b),
            MergeResult::Both(a, b) => format!("B{}{}", a, b),
        })
        .collect()
}

#[test]
fn diff_list_follows_path() {
    let path = [
        Direction::Diagonal,
        Direction::Horizontal,
        Direction::Vertical,
        Direction::Diagonal,
        Direction::Nil,
        Direction::Diagonal,
    ];
    assert_eq!(
        describe_positions(&DiffState::list(&path, 3, 3)),
        vec!["B00", "L1", "R1", "B22"]
    );
    // Steps past the end of a list print nothing for it.
    let path = [Direction::Diagonal, Direction::Diagonal, Direction::Vertical];
    assert_eq!(
        describe_positions(&DiffState::list(&path, 1, 2)),
        vec!["B00"]
    );
}

#[test]
fn diff_ord_list_merges_sorted_lists() {
    let merged = DiffState::ord_list(vec![(1, 0), (3, 1)], vec![(2, 0), (3, 1)]);
    assert_eq!(describe(&merged), vec!["L0", "R0", "B11"]);
}
